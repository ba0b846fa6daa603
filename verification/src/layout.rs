//! Integral positions of the nodes and edges of a diagram.
use crate::evidence::{Diagram, DiagramEdge, DiagramKind, DiagramNode};
use crate::id::{ClaimId, EvidenceId};
use crate::layers;
use crate::sort;
use crate::sort::Ordered;
use crate::text;
use crate::wrap;
use vstd::prelude::*;

verus! {

pub const OUTER_MARGIN: i32 = 152;

pub const HEADER_TITLE_Y: i32 = 38;

pub const HEADER_KIND_Y: i32 = 64;

pub const NODE_LINE_HEIGHT: i32 = 18;

pub const EDGE_LINE_HEIGHT: i32 = 16;

/// Where the body of a diagram starts, below the header.
pub const BODY_TOP: i32 = 118;

/// The header and the bottom margin of a diagram without nodes.
pub const EMPTY_HEIGHT: i32 = 238;

pub const MIN_CANVAS_WIDTH: i32 = 480;

pub const NODE_WIDTH: i32 = 216;

pub const NODE_MIN_HEIGHT: i32 = 62;

pub const NODE_VERTICAL_PADDING: i32 = 28;

pub const NODE_LABEL_UNITS: usize = 22;

pub const EDGE_LABEL_UNITS: usize = 22;

pub const ARCHITECTURE_LAYER_GAP: i32 = 96;

pub const FLOW_LAYER_GAP: i32 = 58;

pub const NODE_GAP: i32 = 24;

pub const RELATIONSHIP_GAP: i32 = 116;

pub const RELATIONSHIP_REST_COLUMNS: usize = 4;

pub const TITLE_UNIT_WIDTH: i32 = 12;

/// No node is taller than this.
pub const HEIGHT_BOUND: i32 = 5_000;

/// No diagram has more nodes than this.
pub const NODE_BOUND: usize = 32;

#[derive(Debug, Clone, Copy, PartialEq, Eq, Structural)]
pub struct Rect {
    pub x: i32,
    pub y: i32,
    pub width: i32,
    pub height: i32,
}

#[derive(Debug, Clone, Copy, PartialEq, Eq, Structural)]
pub struct Point {
    pub x: i32,
    pub y: i32,
}

#[derive(Debug, Clone, Copy, PartialEq, Eq, Structural)]
pub struct BezierPath {
    pub start: Point,
    pub control_1: Point,
    pub control_2: Point,
    pub end: Point,
}

/// A node with its place on the canvas.
#[derive(Debug)]
pub struct NodeLayout {
    pub diagram_index: usize,
    pub rect: Rect,
    pub lines: Vec<String>,
    pub focused: bool,
}

/// An edge with its route on the canvas.
#[derive(Debug)]
pub struct EdgeLayout {
    pub diagram_index: usize,
    pub source_index: usize,
    pub target_index: usize,
    pub path: BezierPath,
    pub label_position: Point,
    pub label_lines: Vec<String>,
    pub dashed: bool,
}

/// A diagram with the place of everything in it.
#[derive(Debug)]
pub struct Layout {
    pub width: i32,
    pub height: i32,
    pub nodes: Vec<NodeLayout>,
    pub edges: Vec<EdgeLayout>,
}

/// A rectangle whose coordinates are small enough to compute with.
pub open spec fn placed(rect: Rect) -> bool {
    &&& 100 <= rect.x <= 1_000_000
    &&& 100 <= rect.y <= 1_000_000
    &&& 0 <= rect.width <= 1_000_000
    &&& 0 <= rect.height <= 1_000_000
}

impl Rect {
    pub fn right(self) -> (x: i32)
        requires
            placed(self),
        ensures
            x == self.x + self.width,
    {
        self.x + self.width
    }

    pub fn bottom(self) -> (y: i32)
        requires
            placed(self),
        ensures
            y == self.y + self.height,
    {
        self.y + self.height
    }

    pub fn center_x(self) -> (x: i32)
        requires
            placed(self),
        ensures
            x == self.x + self.width / 2,
    {
        self.x + self.width / 2
    }

    pub fn center_y(self) -> (y: i32)
        requires
            placed(self),
        ensures
            y == self.y + self.height / 2,
    {
        self.y + self.height / 2
    }
}

/// A number as a coordinate, at most the greatest coordinate.
pub open spec fn coordinate(value: int) -> int {
    if value <= i32::MAX {
        value
    } else {
        i32::MAX as int
    }
}

pub fn to_i32(value: usize) -> (number: i32)
    ensures
        number == coordinate(value as int),
{
    if value <= 0x7fff_ffff {
        value as i32
    } else {
        i32::MAX
    }
}

pub open spec fn larger(left: int, right: int) -> int {
    if left >= right {
        left
    } else {
        right
    }
}

fn max_i32(left: i32, right: i32) -> (greater: i32)
    ensures
        greater == larger(left as int, right as int),
{
    if left >= right {
        left
    } else {
        right
    }
}

/// The height of a node with a number of label lines.
pub open spec fn height_of_lines(line_count: int) -> int {
    larger(line_count * NODE_LINE_HEIGHT + NODE_VERTICAL_PADDING, NODE_MIN_HEIGHT as int)
}

pub fn node_height(line_count: usize) -> (height: i32)
    requires
        line_count <= 1_000_000,
    ensures
        height == height_of_lines(line_count as int),
{
    max_i32(to_i32(line_count) * NODE_LINE_HEIGHT + NODE_VERTICAL_PADDING, NODE_MIN_HEIGHT)
}

/// The extent of equal items side by side.
pub open spec fn row_extent(count: int, item: int, gap: int) -> int {
    if count == 0 {
        0
    } else {
        count * item + (count - 1) * gap
    }
}

fn repeated_extent(count: usize, item: i32, gap: i32) -> (extent: i32)
    requires
        count <= 1_000,
        0 <= item <= 1_000,
        0 <= gap <= 1_000,
    ensures
        extent == row_extent(count as int, item as int, gap as int),
        0 <= extent <= 2_000_000,
{
    if count == 0 {
        0
    } else {
        let number: i32 = to_i32(count);
        assert(0 <= number * item <= 1_000_000) by (nonlinear_arith)
            requires
                0 < number <= 1_000,
                0 <= item <= 1_000,
        ;
        assert(0 <= (number - 1) * gap <= 1_000_000) by (nonlinear_arith)
            requires
                0 < number <= 1_000,
                0 <= gap <= 1_000,
        ;
        number * item + (number - 1) * gap
    }
}

/// The width of the canvas for a title and a body.
pub open spec fn canvas_width(title_units: int, body_width: int) -> int {
    larger(
        larger(
            body_width + OUTER_MARGIN * 2,
            title_units * TITLE_UNIT_WIDTH + OUTER_MARGIN * 2,
        ),
        MIN_CANVAS_WIDTH as int,
    )
}

fn required_width(title_units: usize, body_width: i32) -> (width: i32)
    requires
        title_units <= 1_000,
        0 <= body_width <= 2_000_000,
    ensures
        width == canvas_width(title_units as int, body_width as int),
        body_width + 304 <= width <= 2_012_304,
{
    let title_width: i32 = to_i32(title_units) * TITLE_UNIT_WIDTH;
    max_i32(
        max_i32(body_width + OUTER_MARGIN * 2, title_width + OUTER_MARGIN * 2),
        MIN_CANVAS_WIDTH,
    )
}

/// The first place of a node in an order, or the length of the order.
pub open spec fn rank_of(order: Seq<usize>, v: int) -> nat
    decreases order.len(),
{
    if order.len() == 0 || order[0] == v {
        0
    } else {
        1 + rank_of(order.drop_first(), v)
    }
}

pub proof fn lemma_rank_of(order: Seq<usize>, v: int)
    ensures
        rank_of(order, v) <= order.len(),
        rank_of(order, v) < order.len() ==> order[rank_of(order, v) as int] == v,
        forall|i: int| 0 <= i < rank_of(order, v) ==> #[trigger] order[i] != v,
    decreases order.len(),
{
    if order.len() > 0 && order[0] != v {
        lemma_rank_of(order.drop_first(), v);
        assert forall|i: int| 0 <= i < rank_of(order, v) implies #[trigger] order[i] != v by {
            if i > 0 {
                assert(order[i] == order.drop_first()[i - 1]);
            }
        }
    }
}

pub fn find_rank(order: &Vec<usize>, node: usize) -> (rank: usize)
    ensures
        rank == rank_of(order@, node as int),
        rank <= order@.len(),
{
    let mut rank: usize = 0;
    while rank < order.len() && order[rank] != node
        invariant
            rank <= order@.len(),
            forall|i: int| 0 <= i < rank ==> #[trigger] order@[i] != node,
        decreases order@.len() - rank,
    {
        rank = rank + 1;
    }
    proof {
        lemma_rank_of(order@, node as int);
        let found = rank_of(order@, node as int) as int;
        if found < rank {
            assert(order@[found] != node);
        } else if rank < found {
            assert(order@[rank as int] != node);
        }
    }
    rank
}

/// The extent that the members of a group among the first `count` nodes of an
/// order take up when stacked, with a gap behind each.
pub open spec fn stacked(
    order: Seq<usize>,
    groups: Seq<usize>,
    heights: Seq<i32>,
    group: int,
    count: nat,
) -> int
    decreases count,
{
    if count == 0 {
        0
    } else {
        let v = order[count - 1] as int;
        stacked(order, groups, heights, group, (count - 1) as nat) + if groups[v] == group {
            heights[v] + NODE_GAP
        } else {
            0
        }
    }
}

/// How many of the first `count` nodes of an order are in a group.
pub open spec fn members(order: Seq<usize>, groups: Seq<usize>, group: int, count: nat) -> nat
    decreases count,
{
    if count == 0 {
        0
    } else {
        members(order, groups, group, (count - 1) as nat) + if groups[order[count - 1] as int]
            == group {
            1nat
        } else {
            0nat
        }
    }
}

/// The extent of a whole group when stacked.
pub open spec fn stack_extent(
    order: Seq<usize>,
    groups: Seq<usize>,
    heights: Seq<i32>,
    group: int,
) -> int {
    if members(order, groups, group, order.len()) == 0 {
        0
    } else {
        stacked(order, groups, heights, group, order.len()) - NODE_GAP
    }
}

/// The height of the tallest of the first `count` nodes that is in a group.
pub open spec fn tallest(groups: Seq<usize>, heights: Seq<i32>, group: int, count: nat) -> int
    decreases count,
{
    if count == 0 {
        0
    } else {
        let rest = tallest(groups, heights, group, (count - 1) as nat);
        if groups[count - 1] == group {
            larger(rest, heights[count - 1] as int)
        } else {
            rest
        }
    }
}

/// Where a row starts when rows of groups follow each other downwards.
pub open spec fn row_top(
    groups: Seq<usize>,
    heights: Seq<i32>,
    start: int,
    gap: int,
    row: nat,
) -> int
    decreases row,
{
    if row == 0 {
        start
    } else {
        row_top(groups, heights, start, gap, (row - 1) as nat) + tallest(
            groups,
            heights,
            row - 1,
            heights.len(),
        ) + gap
    }
}

/// The extent of the highest of the first `count` stacks.
pub open spec fn greatest_stack(
    order: Seq<usize>,
    groups: Seq<usize>,
    heights: Seq<i32>,
    count: nat,
) -> int
    decreases count,
{
    if count == 0 {
        0
    } else {
        larger(
            greatest_stack(order, groups, heights, (count - 1) as nat),
            stack_extent(order, groups, heights, count - 1),
        )
    }
}

/// The width of the widest of the first `count` rows.
pub open spec fn widest_row(order: Seq<usize>, groups: Seq<usize>, count: nat) -> int
    decreases count,
{
    if count == 0 {
        0
    } else {
        larger(
            widest_row(order, groups, (count - 1) as nat),
            row_extent(
                members(order, groups, count - 1, order.len()) as int,
                NODE_WIDTH as int,
                NODE_GAP as int,
            ),
        )
    }
}

/// The greatest of the first `count` layers.
pub open spec fn greatest(layers: Seq<usize>, count: nat) -> int
    decreases count,
{
    if count == 0 {
        0
    } else {
        larger(greatest(layers, (count - 1) as nat), layers[count - 1] as int)
    }
}

/// The data that positions are computed from: an order of the nodes, their groups
/// and their heights.
pub open spec fn arranged(order: Seq<usize>, groups: Seq<usize>, heights: Seq<i32>) -> bool {
    &&& order.len() == groups.len() == heights.len() <= NODE_BOUND
    &&& forall|i: int| 0 <= i < order.len() ==> #[trigger] order[i] < groups.len()
    &&& forall|i: int|
        0 <= i < heights.len() ==> NODE_MIN_HEIGHT <= #[trigger] heights[i] <= HEIGHT_BOUND
}

pub proof fn lemma_stacked_bound(
    order: Seq<usize>,
    groups: Seq<usize>,
    heights: Seq<i32>,
    group: int,
    count: nat,
)
    requires
        arranged(order, groups, heights),
        count <= order.len(),
    ensures
        0 <= stacked(order, groups, heights, group, count) <= count * 5_024,
        members(order, groups, group, count) <= count,
        members(order, groups, group, count) > 0 ==> stacked(order, groups, heights, group, count)
            >= 86,
    decreases count,
{
    if count > 0 {
        lemma_stacked_bound(order, groups, heights, group, (count - 1) as nat);
        assert(order[count - 1] < groups.len());
        assert(heights[order[count - 1] as int] <= HEIGHT_BOUND);
    }
}

pub proof fn lemma_stacked_monotonic(
    order: Seq<usize>,
    groups: Seq<usize>,
    heights: Seq<i32>,
    group: int,
    few: nat,
    count: nat,
)
    requires
        arranged(order, groups, heights),
        few <= count <= order.len(),
    ensures
        stacked(order, groups, heights, group, few) <= stacked(
            order,
            groups,
            heights,
            group,
            count,
        ),
        members(order, groups, group, few) <= members(order, groups, group, count),
    decreases count,
{
    if few < count {
        lemma_stacked_monotonic(order, groups, heights, group, few, (count - 1) as nat);
        assert(order[count - 1] < groups.len());
        assert(heights[order[count - 1] as int] >= NODE_MIN_HEIGHT);
    }
}

pub proof fn lemma_tallest_bound(groups: Seq<usize>, heights: Seq<i32>, group: int, count: nat)
    requires
        heights.len() == groups.len(),
        forall|i: int|
            0 <= i < heights.len() ==> NODE_MIN_HEIGHT <= #[trigger] heights[i] <= HEIGHT_BOUND,
        count <= heights.len(),
    ensures
        0 <= tallest(groups, heights, group, count) <= HEIGHT_BOUND,
        forall|i: int|
            0 <= i < count && groups[i] == group ==> #[trigger] heights[i] <= tallest(
                groups,
                heights,
                group,
                count,
            ),
    decreases count,
{
    if count > 0 {
        lemma_tallest_bound(groups, heights, group, (count - 1) as nat);
        assert(heights[count - 1] <= HEIGHT_BOUND);
    }
}

pub proof fn lemma_row_top_bound(
    groups: Seq<usize>,
    heights: Seq<i32>,
    start: int,
    gap: int,
    row: nat,
)
    requires
        heights.len() == groups.len(),
        forall|i: int|
            0 <= i < heights.len() ==> NODE_MIN_HEIGHT <= #[trigger] heights[i] <= HEIGHT_BOUND,
        0 <= gap <= 100,
    ensures
        start <= row_top(groups, heights, start, gap, row) <= start + row * 5_100,
    decreases row,
{
    if row > 0 {
        lemma_row_top_bound(groups, heights, start, gap, (row - 1) as nat);
        lemma_tallest_bound(groups, heights, row - 1, heights.len());
    }
}

/// The extent and the number of the members of a group among the first nodes.
fn measure(
    order: &Vec<usize>,
    groups: &Vec<usize>,
    heights: &Vec<i32>,
    group: usize,
    count: usize,
) -> (measured: (i32, usize))
    requires
        arranged(order@, groups@, heights@),
        count <= order@.len(),
    ensures
        measured.0 == stacked(order@, groups@, heights@, group as int, count as nat),
        measured.1 == members(order@, groups@, group as int, count as nat),
        0 <= measured.0 <= 200_000,
        measured.1 <= count,
        measured.1 > 0 ==> measured.0 >= 86,
{
    let mut extent: i32 = 0;
    let mut found: usize = 0;
    let mut index: usize = 0;
    while index < count
        invariant
            index <= count <= order@.len(),
            arranged(order@, groups@, heights@),
            extent == stacked(order@, groups@, heights@, group as int, index as nat),
            found == members(order@, groups@, group as int, index as nat),
            found <= index,
        decreases count - index,
    {
        proof {
            lemma_stacked_bound(order@, groups@, heights@, group as int, index as nat);
        }
        let node = order[index];
        assert(node < groups@.len());
        assert(heights@[node as int] <= HEIGHT_BOUND);
        assert(heights@[node as int] >= NODE_MIN_HEIGHT);
        if groups[node] == group {
            extent = extent + (heights[node] + NODE_GAP);
            found = found + 1;
        }
        index = index + 1;
    }
    proof {
        lemma_stacked_bound(order@, groups@, heights@, group as int, count as nat);
    }
    (extent, found)
}

fn stack_height(order: &Vec<usize>, groups: &Vec<usize>, heights: &Vec<i32>, group: usize) -> (
extent: i32)
    requires
        arranged(order@, groups@, heights@),
    ensures
        extent == stack_extent(order@, groups@, heights@, group as int),
        0 <= extent <= 200_000,
{
    let (whole, found) = measure(order, groups, heights, group, order.len());
    if found == 0 {
        0
    } else {
        whole - NODE_GAP
    }
}

fn tallest_of(groups: &Vec<usize>, heights: &Vec<i32>, group: usize) -> (height: i32)
    requires
        groups@.len() == heights@.len(),
        forall|i: int|
            0 <= i < heights@.len() ==> NODE_MIN_HEIGHT <= #[trigger] heights@[i] <= HEIGHT_BOUND,
    ensures
        height == tallest(groups@, heights@, group as int, heights@.len()),
        0 <= height <= HEIGHT_BOUND,
{
    let mut height: i32 = 0;
    let mut node: usize = 0;
    while node < heights.len()
        invariant
            node <= heights@.len(),
            groups@.len() == heights@.len(),
            height == tallest(groups@, heights@, group as int, node as nat),
        decreases heights@.len() - node,
    {
        if groups[node] == group {
            height = max_i32(height, heights[node]);
        }
        node = node + 1;
    }
    proof {
        lemma_tallest_bound(groups@, heights@, group as int, heights@.len());
    }
    height
}

/// Where a row starts.
fn top_of(groups: &Vec<usize>, heights: &Vec<i32>, start: i32, gap: i32, row: usize) -> (top: i32)
    requires
        groups@.len() == heights@.len(),
        forall|i: int|
            0 <= i < heights@.len() ==> NODE_MIN_HEIGHT <= #[trigger] heights@[i] <= HEIGHT_BOUND,
        0 <= gap <= 100,
        0 <= start <= 500_000,
        row <= NODE_BOUND,
    ensures
        top == row_top(groups@, heights@, start as int, gap as int, row as nat),
        start <= top <= 700_000,
{
    let mut top: i32 = start;
    let mut index: usize = 0;
    while index < row
        invariant
            index <= row <= NODE_BOUND,
            groups@.len() == heights@.len(),
            forall|i: int|
                0 <= i < heights@.len() ==> NODE_MIN_HEIGHT <= #[trigger] heights@[i]
                    <= HEIGHT_BOUND,
            0 <= gap <= 100,
            0 <= start <= 500_000,
            top == row_top(groups@, heights@, start as int, gap as int, index as nat),
        decreases row - index,
    {
        proof {
            lemma_row_top_bound(groups@, heights@, start as int, gap as int, index as nat);
        }
        top = top + (tallest_of(groups, heights, index) + gap);
        index = index + 1;
    }
    proof {
        lemma_row_top_bound(groups@, heights@, start as int, gap as int, row as nat);
    }
    top
}

/// The greatest layer.
fn last_layer(layers: &Vec<usize>) -> (layer: usize)
    requires
        forall|v: int| 0 <= v < layers@.len() ==> #[trigger] layers@[v] < NODE_BOUND,
    ensures
        layer == greatest(layers@, layers@.len()),
        layer < NODE_BOUND,
        forall|v: int| 0 <= v < layers@.len() ==> #[trigger] layers@[v] <= layer,
{
    let mut layer: usize = 0;
    let mut node: usize = 0;
    while node < layers.len()
        invariant
            node <= layers@.len(),
            forall|v: int| 0 <= v < layers@.len() ==> #[trigger] layers@[v] < NODE_BOUND,
            layer == greatest(layers@, node as nat),
            layer < NODE_BOUND,
            forall|v: int| 0 <= v < node ==> #[trigger] layers@[v] <= layer,
        decreases layers@.len() - node,
    {
        if layers[node] > layer {
            layer = layers[node];
        }
        node = node + 1;
    }
    layer
}

/// The canvas of layered columns: left to right, each column centred.
pub open spec fn column_canvas(
    order: Seq<usize>,
    layers: Seq<usize>,
    heights: Seq<i32>,
    title_units: int,
) -> (int, int) {
    let columns = greatest(layers, layers.len()) + 1;
    (
        canvas_width(
            title_units,
            row_extent(columns, NODE_WIDTH as int, ARCHITECTURE_LAYER_GAP as int),
        ),
        BODY_TOP + greatest_stack(order, layers, heights, columns as nat) + OUTER_MARGIN,
    )
}

/// The place of a node in layered columns.
pub open spec fn column_place(
    order: Seq<usize>,
    layers: Seq<usize>,
    heights: Seq<i32>,
    title_units: int,
    v: int,
) -> (int, int) {
    let columns = greatest(layers, layers.len()) + 1;
    let layer = layers[v] as int;
    let body_width = row_extent(columns, NODE_WIDTH as int, ARCHITECTURE_LAYER_GAP as int);
    let body_height = greatest_stack(order, layers, heights, columns as nat);
    (
        (canvas_width(title_units, body_width) - body_width) / 2 + layer * (NODE_WIDTH
            + ARCHITECTURE_LAYER_GAP),
        BODY_TOP + (body_height - stack_extent(order, layers, heights, layer)) / 2 + stacked(
            order,
            layers,
            heights,
            layer,
            rank_of(order, v),
        ),
    )
}

/// The canvas of layered rows: top down, each row centred.
pub open spec fn row_canvas(
    order: Seq<usize>,
    layers: Seq<usize>,
    heights: Seq<i32>,
    title_units: int,
) -> (int, int) {
    let rows = greatest(layers, layers.len()) + 1;
    (
        canvas_width(title_units, widest_row(order, layers, rows as nat)),
        row_top(layers, heights, BODY_TOP as int, FLOW_LAYER_GAP as int, rows as nat)
            - FLOW_LAYER_GAP + OUTER_MARGIN,
    )
}

/// The place of a node in layered rows.
pub open spec fn row_place(
    order: Seq<usize>,
    layers: Seq<usize>,
    heights: Seq<i32>,
    title_units: int,
    v: int,
) -> (int, int) {
    let rows = greatest(layers, layers.len()) + 1;
    let layer = layers[v] as int;
    let width = canvas_width(title_units, widest_row(order, layers, rows as nat));
    (
        (width - row_extent(
            members(order, layers, layer, order.len()) as int,
            NODE_WIDTH as int,
            NODE_GAP as int,
        )) / 2 + members(order, layers, layer, rank_of(order, v)) * (NODE_WIDTH + NODE_GAP),
        row_top(layers, heights, BODY_TOP as int, FLOW_LAYER_GAP as int, layer as nat) + (tallest(
            layers,
            heights,
            layer,
            heights.len(),
        ) - heights[v]) / 2,
    )
}

/// The rectangles of nodes, given the place of each.
pub open spec fn rects_at(
    rects: Seq<Rect>,
    heights: Seq<i32>,
    place: spec_fn(int) -> (int, int),
) -> bool {
    &&& rects.len() == heights.len()
    &&& forall|v: int|
        0 <= v < rects.len() ==> {
            &&& (#[trigger] rects[v]).x == place(v).0
            &&& rects[v].y == place(v).1
            &&& rects[v].width == NODE_WIDTH
            &&& rects[v].height == heights[v]
        }
}

pub open spec fn column_places(
    order: Seq<usize>,
    layers: Seq<usize>,
    heights: Seq<i32>,
    title_units: int,
) -> spec_fn(int) -> (int, int) {
    |v: int| column_place(order, layers, heights, title_units, v)
}

pub open spec fn row_places(
    order: Seq<usize>,
    layers: Seq<usize>,
    heights: Seq<i32>,
    title_units: int,
) -> spec_fn(int) -> (int, int) {
    |v: int| row_place(order, layers, heights, title_units, v)
}

pub proof fn lemma_greatest_stack(
    order: Seq<usize>,
    groups: Seq<usize>,
    heights: Seq<i32>,
    count: nat,
)
    requires
        arranged(order, groups, heights),
    ensures
        0 <= greatest_stack(order, groups, heights, count) <= 200_000,
        forall|l: int|
            0 <= l < count ==> #[trigger] stack_extent(order, groups, heights, l)
                <= greatest_stack(order, groups, heights, count),
    decreases count,
{
    if count > 0 {
        lemma_greatest_stack(order, groups, heights, (count - 1) as nat);
        lemma_stacked_bound(order, groups, heights, count - 1, order.len());
    }
}

pub proof fn lemma_widest_row(order: Seq<usize>, groups: Seq<usize>, heights: Seq<i32>, count: nat)
    requires
        arranged(order, groups, heights),
    ensures
        0 <= widest_row(order, groups, count) <= 8_000,
        forall|l: int|
            0 <= l < count ==> row_extent(
                #[trigger] members(order, groups, l, order.len()) as int,
                NODE_WIDTH as int,
                NODE_GAP as int,
            ) <= widest_row(order, groups, count),
    decreases count,
{
    if count > 0 {
        lemma_widest_row(order, groups, heights, (count - 1) as nat);
        lemma_stacked_bound(order, groups, heights, count - 1, order.len());
    }
}

/// Rectangles of layered columns.
fn architecture_positions(
    order: &Vec<usize>,
    layers: &Vec<usize>,
    heights: &Vec<i32>,
    title_units: usize,
) -> (positions: (Vec<Rect>, i32, i32))
    requires
        arranged(order@, layers@, heights@),
        forall|v: int| 0 <= v < layers@.len() ==> #[trigger] layers@[v] < NODE_BOUND,
        title_units <= 1_000,
    ensures
        rects_at(
            positions.0@,
            heights@,
            column_places(order@, layers@, heights@, title_units as int),
        ),
        (positions.1 as int, positions.2 as int) == column_canvas(
            order@,
            layers@,
            heights@,
            title_units as int,
        ),
        forall|v: int| 0 <= v < positions.0@.len() ==> placed(#[trigger] positions.0@[v]),
        0 <= positions.1,
        0 <= positions.2,
{
    let columns: usize = last_layer(layers) + 1;
    let body_width = repeated_extent(columns, NODE_WIDTH, ARCHITECTURE_LAYER_GAP);
    let width = required_width(title_units, body_width);
    assert(body_width <= 32 * 312);
    let mut body_height: i32 = 0;
    let mut column: usize = 0;
    while column < columns
        invariant
            column <= columns,
            arranged(order@, layers@, heights@),
            body_height == greatest_stack(order@, layers@, heights@, column as nat),
        decreases columns - column,
    {
        body_height = max_i32(body_height, stack_height(order, layers, heights, column));
        column = column + 1;
    }
    proof {
        lemma_greatest_stack(order@, layers@, heights@, columns as nat);
    }
    let body_start_x: i32 = (width - body_width) / 2;
    let mut rects: Vec<Rect> = Vec::new();
    let mut node: usize = 0;
    while node < heights.len()
        invariant
            node <= heights@.len(),
            arranged(order@, layers@, heights@),
            columns == greatest(layers@, layers@.len()) + 1,
            columns <= NODE_BOUND,
            forall|v: int| 0 <= v < layers@.len() ==> #[trigger] layers@[v] < columns,
            body_height == greatest_stack(order@, layers@, heights@, columns as nat),
            0 <= body_height <= 200_000,
            body_width == row_extent(
                columns as int,
                NODE_WIDTH as int,
                ARCHITECTURE_LAYER_GAP as int,
            ),
            0 <= body_width <= 32 * 312,
            width == canvas_width(title_units as int, body_width as int),
            152 <= body_start_x <= 20_000,
            body_start_x == (width - body_width) / 2,
            rects@.len() == node,
            forall|v: int|
                0 <= v < node ==> {
                    let place = column_place(
                        order@,
                        layers@,
                        heights@,
                        title_units as int,
                        v,
                    );
                    &&& (#[trigger] rects@[v]).x == place.0
                    &&& rects@[v].y == place.1
                    &&& rects@[v].width == NODE_WIDTH
                    &&& rects@[v].height == heights@[v]
                    &&& placed(rects@[v])
                },
        decreases heights@.len() - node,
    {
        let layer = layers[node];
        assert(layer < columns);
        let rank = find_rank(order, node);
        let (above, _) = measure(order, layers, heights, layer, rank);
        let extent = stack_height(order, layers, heights, layer);
        proof {
            lemma_greatest_stack(order@, layers@, heights@, columns as nat);
        }
        assert(extent <= body_height);
        let y: i32 = BODY_TOP + (body_height - extent) / 2 + above;
        let x: i32 = body_start_x + to_i32(layer) * (NODE_WIDTH + ARCHITECTURE_LAYER_GAP);
        assert(NODE_MIN_HEIGHT <= heights@[node as int] <= HEIGHT_BOUND);
        rects.push(Rect { x, y, width: NODE_WIDTH, height: heights[node] });
        node = node + 1;
    }
    (rects, width, BODY_TOP + body_height + OUTER_MARGIN)
}

/// Rectangles of layered rows.
fn flow_positions(
    order: &Vec<usize>,
    layers: &Vec<usize>,
    heights: &Vec<i32>,
    title_units: usize,
) -> (positions: (Vec<Rect>, i32, i32))
    requires
        arranged(order@, layers@, heights@),
        forall|v: int| 0 <= v < layers@.len() ==> #[trigger] layers@[v] < NODE_BOUND,
        title_units <= 1_000,
    ensures
        rects_at(
            positions.0@,
            heights@,
            row_places(order@, layers@, heights@, title_units as int),
        ),
        (positions.1 as int, positions.2 as int) == row_canvas(
            order@,
            layers@,
            heights@,
            title_units as int,
        ),
        forall|v: int| 0 <= v < positions.0@.len() ==> placed(#[trigger] positions.0@[v]),
        0 <= positions.1,
        0 <= positions.2,
{
    let rows: usize = last_layer(layers) + 1;
    let mut body_width: i32 = 0;
    let mut row: usize = 0;
    while row < rows
        invariant
            row <= rows,
            arranged(order@, layers@, heights@),
            body_width == widest_row(order@, layers@, row as nat),
        decreases rows - row,
    {
        let (_, found) = measure(order, layers, heights, row, order.len());
        body_width = max_i32(body_width, repeated_extent(found, NODE_WIDTH, NODE_GAP));
        row = row + 1;
    }
    proof {
        lemma_widest_row(order@, layers@, heights@, rows as nat);
    }
    let width = required_width(title_units, body_width);
    let mut rects: Vec<Rect> = Vec::new();
    let mut node: usize = 0;
    while node < heights.len()
        invariant
            node <= heights@.len(),
            arranged(order@, layers@, heights@),
            rows == greatest(layers@, layers@.len()) + 1,
            rows <= NODE_BOUND,
            forall|v: int| 0 <= v < layers@.len() ==> #[trigger] layers@[v] < rows,
            body_width == widest_row(order@, layers@, rows as nat),
            0 <= body_width <= 8_000,
            width == canvas_width(title_units as int, body_width as int),
            body_width + 304 <= width <= 100_000,
            rects@.len() == node,
            forall|v: int|
                0 <= v < node ==> {
                    let place = row_place(order@, layers@, heights@, title_units as int, v);
                    &&& (#[trigger] rects@[v]).x == place.0
                    &&& rects@[v].y == place.1
                    &&& rects@[v].width == NODE_WIDTH
                    &&& rects@[v].height == heights@[v]
                    &&& placed(rects@[v])
                },
        decreases heights@.len() - node,
    {
        let layer = layers[node];
        assert(layer < rows);
        let rank = find_rank(order, node);
        let (_, before) = measure(order, layers, heights, layer, rank);
        let (_, found) = measure(order, layers, heights, layer, order.len());
        let row_width = repeated_extent(found, NODE_WIDTH, NODE_GAP);
        proof {
            lemma_widest_row(order@, layers@, heights@, rows as nat);
            assert(members(order@, layers@, layer as int, order@.len()) == found);
            lemma_tallest_bound(layers@, heights@, layer as int, heights@.len());
        }
        assert(row_width <= body_width);
        let x: i32 = (width - row_width) / 2 + to_i32(before) * (NODE_WIDTH + NODE_GAP);
        let top = top_of(layers, heights, BODY_TOP, FLOW_LAYER_GAP, layer);
        let row_height = tallest_of(layers, heights, layer);
        assert(heights@[node as int] <= row_height);
        assert(NODE_MIN_HEIGHT <= heights@[node as int] <= HEIGHT_BOUND);
        let y: i32 = top + (row_height - heights[node]) / 2;
        rects.push(Rect { x, y, width: NODE_WIDTH, height: heights[node] });
        node = node + 1;
    }
    let bottom = top_of(layers, heights, BODY_TOP, FLOW_LAYER_GAP, rows);
    (rects, width, bottom - FLOW_LAYER_GAP + OUTER_MARGIN)
}

/// How many ends the first `count` edges have at a node.
pub open spec fn degree(endpoints: Seq<(usize, usize)>, v: int, count: nat) -> nat
    decreases count,
{
    if count == 0 {
        0
    } else {
        degree(endpoints, v, (count - 1) as nat) + (if endpoints[count - 1].0 == v {
            1nat
        } else {
            0nat
        }) + (if endpoints[count - 1].1 == v {
            1nat
        } else {
            0nat
        })
    }
}

/// The first node of greatest degree among the first `count` nodes of an order.
pub open spec fn hub(order: Seq<usize>, endpoints: Seq<(usize, usize)>, count: nat) -> usize
    decreases count,
{
    if count <= 1 {
        order[0]
    } else {
        let best = hub(order, endpoints, (count - 1) as nat);
        let candidate = order[count - 1];
        if degree(endpoints, candidate as int, endpoints.len()) > degree(
            endpoints,
            best as int,
            endpoints.len(),
        ) {
            candidate
        } else {
            best
        }
    }
}

/// How a node is related to the centre: the centre itself, with an edge to the
/// centre, with an edge from it only, or not joined with it.
pub open spec fn relation_group(
    endpoints: Seq<(usize, usize)>,
    center: int,
    v: int,
) -> usize {
    if v == center {
        0
    } else if layers::edge(endpoints, v, center) {
        1
    } else if layers::edge(endpoints, center, v) {
        2
    } else {
        3
    }
}

pub open spec fn relation_groups(
    endpoints: Seq<(usize, usize)>,
    center: int,
    node_count: nat,
) -> Seq<usize> {
    Seq::new(node_count, |v: int| relation_group(endpoints, center, v))
}

/// The row of a node that is not joined with the centre; such nodes fill rows of
/// four in order. Other nodes are in no row.
pub open spec fn rest_row(order: Seq<usize>, groups: Seq<usize>, v: int) -> usize {
    if groups[v] == 3 {
        (members(order, groups, 3, rank_of(order, v)) / 4) as usize
    } else {
        order.len() as usize
    }
}

pub open spec fn rest_rows(order: Seq<usize>, groups: Seq<usize>) -> Seq<usize> {
    Seq::new(groups.len(), |v: int| rest_row(order, groups, v))
}

/// The height of the part around the centre.
pub open spec fn relation_height(
    order: Seq<usize>,
    groups: Seq<usize>,
    heights: Seq<i32>,
    center: int,
) -> int {
    larger(
        larger(
            stack_extent(order, groups, heights, 1),
            stack_extent(order, groups, heights, 2),
        ),
        heights[center] as int,
    )
}

pub open spec fn relation_width(
    order: Seq<usize>,
    groups: Seq<usize>,
    title_units: int,
) -> int {
    let rest = members(order, groups, 3, order.len()) as int;
    let columns = if rest < 4 {
        rest
    } else {
        4
    };
    canvas_width(
        title_units,
        larger(
            NODE_WIDTH * 3 + RELATIONSHIP_GAP * 2,
            row_extent(columns, NODE_WIDTH as int, NODE_GAP as int),
        ),
    )
}

/// The canvas around a centre.
pub open spec fn relation_canvas(
    order: Seq<usize>,
    groups: Seq<usize>,
    heights: Seq<i32>,
    center: int,
    title_units: int,
) -> (int, int) {
    let main_bottom = BODY_TOP + relation_height(order, groups, heights, center);
    let rest = members(order, groups, 3, order.len()) as int;
    let bottom = if rest == 0 {
        main_bottom
    } else {
        row_top(
            rest_rows(order, groups),
            heights,
            main_bottom + FLOW_LAYER_GAP,
            NODE_GAP as int,
            ((rest + 3) / 4) as nat,
        ) - NODE_GAP
    };
    (relation_width(order, groups, title_units), bottom + OUTER_MARGIN)
}

/// The place of a node around a centre: incoming nodes to the left, outgoing
/// nodes to the right, the rest below.
pub open spec fn relation_place(
    order: Seq<usize>,
    groups: Seq<usize>,
    heights: Seq<i32>,
    center: int,
    title_units: int,
    v: int,
) -> (int, int) {
    let width = relation_width(order, groups, title_units);
    let main_height = relation_height(order, groups, heights, center);
    let center_x = (width - NODE_WIDTH) / 2;
    let group = groups[v] as int;
    let rank = rank_of(order, v);
    if group == 0 {
        (center_x, BODY_TOP + (main_height - heights[v]) / 2)
    } else if group == 1 {
        (
            center_x - NODE_WIDTH - RELATIONSHIP_GAP,
            BODY_TOP + (main_height - stack_extent(order, groups, heights, 1)) / 2 + stacked(
                order,
                groups,
                heights,
                1,
                rank,
            ),
        )
    } else if group == 2 {
        (
            center_x + NODE_WIDTH + RELATIONSHIP_GAP,
            BODY_TOP + (main_height - stack_extent(order, groups, heights, 2)) / 2 + stacked(
                order,
                groups,
                heights,
                2,
                rank,
            ),
        )
    } else {
        let rows = rest_rows(order, groups);
        let row = rows[v] as int;
        (
            (width - row_extent(
                members(order, rows, row, order.len()) as int,
                NODE_WIDTH as int,
                NODE_GAP as int,
            )) / 2 + members(order, rows, row, rank) * (NODE_WIDTH + NODE_GAP),
            row_top(
                rows,
                heights,
                BODY_TOP + main_height + FLOW_LAYER_GAP,
                NODE_GAP as int,
                row as nat,
            ) + (tallest(rows, heights, row, heights.len()) - heights[v]) / 2,
        )
    }
}

pub open spec fn relation_places(
    order: Seq<usize>,
    groups: Seq<usize>,
    heights: Seq<i32>,
    center: int,
    title_units: int,
) -> spec_fn(int) -> (int, int) {
    |v: int| relation_place(order, groups, heights, center, title_units, v)
}

pub proof fn lemma_rank_of_listed(order: Seq<usize>, i: int)
    requires
        order.no_duplicates(),
        0 <= i < order.len(),
    ensures
        rank_of(order, order[i] as int) == i,
{
    lemma_rank_of(order, order[i] as int);
    let found = rank_of(order, order[i] as int) as int;
    if found < i {
        assert(order[found] == order[i]);
    } else if i < found {
        assert(order[i] != order[i] as int);
    }
}

/// Rows hold the rest four by four.
pub proof fn lemma_rest_rows(order: Seq<usize>, groups: Seq<usize>, row: int, count: nat)
    requires
        order.no_duplicates(),
        order.len() == groups.len() <= NODE_BOUND,
        forall|i: int| 0 <= i < order.len() ==> #[trigger] order[i] < groups.len(),
        0 <= row < order.len(),
        count <= order.len(),
    ensures
        members(order, rest_rows(order, groups), row, count) == {
            let listed = members(order, groups, 3, count) - 4 * row;
            if listed < 0 {
                0
            } else if listed > 4 {
                4
            } else {
                listed
            }
        },
        members(order, groups, 3, count) <= count,
    decreases count,
{
    if count > 0 {
        lemma_rest_rows(order, groups, row, (count - 1) as nat);
        let v = order[count - 1] as int;
        assert(v < groups.len());
        lemma_rank_of_listed(order, count - 1);
        let earlier = members(order, groups, 3, (count - 1) as nat);
        if groups[v] == 3 {
            assert(rest_rows(order, groups)[v] == earlier / 4);
        } else {
            assert(rest_rows(order, groups)[v] == order.len());
        }
    }
}

fn degree_of(endpoints: &[(usize, usize)], node: usize) -> (found: usize)
    requires
        endpoints@.len() <= 1_000_000,
    ensures
        found == degree(endpoints@, node as int, endpoints@.len()),
{
    let mut found: usize = 0;
    let mut index: usize = 0;
    while index < endpoints.len()
        invariant
            index <= endpoints@.len() <= 1_000_000,
            found == degree(endpoints@, node as int, index as nat),
            found <= 2 * index,
        decreases endpoints@.len() - index,
    {
        let (source, target) = endpoints[index];
        if source == node {
            found = found + 1;
        }
        if target == node {
            found = found + 1;
        }
        index = index + 1;
    }
    found
}

/// The first node of greatest degree in an order.
fn relationship_center(order: &Vec<usize>, endpoints: &[(usize, usize)]) -> (center: usize)
    requires
        order@.len() > 0,
        endpoints@.len() <= 1_000_000,
    ensures
        center == hub(order@, endpoints@, order@.len()),
        order@.contains(center),
{
    let mut center = order[0];
    let mut index: usize = 1;
    while index < order.len()
        invariant
            1 <= index <= order@.len(),
            endpoints@.len() <= 1_000_000,
            center == hub(order@, endpoints@, index as nat),
            order@.contains(center),
        decreases order@.len() - index,
    {
        let candidate = order[index];
        if degree_of(endpoints, candidate) > degree_of(endpoints, center) {
            center = candidate;
            assert(order@[index as int] == candidate);
        }
        index = index + 1;
    }
    center
}

fn has_edge(endpoints: &[(usize, usize)], source: usize, target: usize) -> (found: bool)
    ensures
        found == layers::edge(endpoints@, source as int, target as int),
{
    let mut index: usize = 0;
    while index < endpoints.len()
        invariant
            index <= endpoints@.len(),
            forall|e: int|
                0 <= e < index ==> !((#[trigger] endpoints@[e]).0 == source && endpoints@[e].1
                    == target),
        decreases endpoints@.len() - index,
    {
        let (from, to) = endpoints[index];
        if from == source && to == target {
            assert(endpoints@[index as int].0 == source);
            return true;
        }
        index = index + 1;
    }
    false
}

fn relationship_groups(endpoints: &[(usize, usize)], center: usize, node_count: usize) -> (groups:
    Vec<usize>)
    ensures
        groups@ == relation_groups(endpoints@, center as int, node_count as nat),
{
    let mut groups: Vec<usize> = Vec::new();
    let mut node: usize = 0;
    while node < node_count
        invariant
            node <= node_count,
            groups@.len() == node,
            forall|v: int|
                0 <= v < node ==> #[trigger] groups@[v] == relation_group(
                    endpoints@,
                    center as int,
                    v,
                ),
        decreases node_count - node,
    {
        let group: usize = if node == center {
            0
        } else if has_edge(endpoints, node, center) {
            1
        } else if has_edge(endpoints, center, node) {
            2
        } else {
            3
        };
        groups.push(group);
        node = node + 1;
    }
    assert(groups@ =~= relation_groups(endpoints@, center as int, node_count as nat));
    groups
}

fn relationship_rows(order: &Vec<usize>, groups: &Vec<usize>, heights: &Vec<i32>) -> (rows: Vec<
    usize,
>)
    requires
        arranged(order@, groups@, heights@),
    ensures
        rows@ == rest_rows(order@, groups@),
{
    let mut rows: Vec<usize> = Vec::new();
    let mut node: usize = 0;
    while node < groups.len()
        invariant
            node <= groups@.len(),
            arranged(order@, groups@, heights@),
            rows@.len() == node,
            forall|v: int|
                0 <= v < node ==> #[trigger] rows@[v] == rest_row(order@, groups@, v),
        decreases groups@.len() - node,
    {
        let row: usize = if groups[node] == 3 {
            let rank = find_rank(order, node);
            let (_, before) = measure(order, groups, heights, 3, rank);
            before / RELATIONSHIP_REST_COLUMNS
        } else {
            order.len()
        };
        rows.push(row);
        node = node + 1;
    }
    assert(rows@ =~= rest_rows(order@, groups@));
    rows
}

/// Rectangles around a centre.
fn relationship_positions(
    order: &Vec<usize>,
    groups: &Vec<usize>,
    heights: &Vec<i32>,
    center: usize,
    title_units: usize,
) -> (positions: (Vec<Rect>, i32, i32))
    requires
        arranged(order@, groups@, heights@),
        order@.no_duplicates(),
        center < heights@.len(),
        forall|v: int| 0 <= v < groups@.len() && groups@[v] == 0 ==> v == center,
        forall|v: int| 0 <= v < groups@.len() ==> #[trigger] groups@[v] <= 3,
        forall|v: usize| v < groups@.len() ==> #[trigger] order@.contains(v),
        title_units <= 1_000,
    ensures
        rects_at(
            positions.0@,
            heights@,
            relation_places(order@, groups@, heights@, center as int, title_units as int),
        ),
        (positions.1 as int, positions.2 as int) == relation_canvas(
            order@,
            groups@,
            heights@,
            center as int,
            title_units as int,
        ),
        forall|v: int| 0 <= v < positions.0@.len() ==> placed(#[trigger] positions.0@[v]),
        0 <= positions.1,
        0 <= positions.2,
{
    let incoming_height = stack_height(order, groups, heights, 1);
    let outgoing_height = stack_height(order, groups, heights, 2);
    assert(NODE_MIN_HEIGHT <= heights@[center as int] <= HEIGHT_BOUND);
    let main_height = max_i32(max_i32(incoming_height, outgoing_height), heights[center]);
    let main_width: i32 = NODE_WIDTH * 3 + RELATIONSHIP_GAP * 2;
    let (_, rest) = measure(order, groups, heights, 3, order.len());
    let columns: usize = if rest < RELATIONSHIP_REST_COLUMNS {
        rest
    } else {
        RELATIONSHIP_REST_COLUMNS
    };
    let body_width = max_i32(main_width, repeated_extent(columns, NODE_WIDTH, NODE_GAP));
    let width = required_width(title_units, body_width);
    let center_x: i32 = (width - NODE_WIDTH) / 2;
    let rest_start: i32 = BODY_TOP + main_height + FLOW_LAYER_GAP;
    let rows = relationship_rows(order, groups, heights);
    let mut rects: Vec<Rect> = Vec::new();
    let mut node: usize = 0;
    while node < heights.len()
        invariant
            node <= heights@.len(),
            arranged(order@, groups@, heights@),
            order@.no_duplicates(),
            center < heights@.len(),
            forall|v: int| 0 <= v < groups@.len() && groups@[v] == 0 ==> v == center,
            forall|v: int| 0 <= v < groups@.len() ==> #[trigger] groups@[v] <= 3,
            forall|v: usize| v < groups@.len() ==> #[trigger] order@.contains(v),
            incoming_height == stack_extent(order@, groups@, heights@, 1),
            outgoing_height == stack_extent(order@, groups@, heights@, 2),
            main_height == relation_height(order@, groups@, heights@, center as int),
            62 <= main_height <= 200_000,
            0 <= incoming_height <= main_height,
            0 <= outgoing_height <= main_height,
            heights@[center as int] <= main_height,
            rest == members(order@, groups@, 3, order@.len()),
            width == relation_width(order@, groups@, title_units as int),
            1_184 <= width <= 100_000,
            center_x == (width - NODE_WIDTH) / 2,
            rest_start == BODY_TOP + main_height + FLOW_LAYER_GAP,
            rows@ == rest_rows(order@, groups@),
            rects@.len() == node,
            forall|v: int|
                0 <= v < node ==> {
                    let place = relation_place(
                        order@,
                        groups@,
                        heights@,
                        center as int,
                        title_units as int,
                        v,
                    );
                    &&& (#[trigger] rects@[v]).x == place.0
                    &&& rects@[v].y == place.1
                    &&& rects@[v].width == NODE_WIDTH
                    &&& rects@[v].height == heights@[v]
                    &&& placed(rects@[v])
                },
        decreases heights@.len() - node,
    {
        assert(NODE_MIN_HEIGHT <= heights@[node as int] <= HEIGHT_BOUND);
        assert(groups@[node as int] <= 3);
        let group = groups[node];
        let rank = find_rank(order, node);
        let (x, y): (i32, i32) = if group == 0 {
            (center_x, BODY_TOP + (main_height - heights[node]) / 2)
        } else if group == 1 {
            let (above, _) = measure(order, groups, heights, 1, rank);
            (
                center_x - NODE_WIDTH - RELATIONSHIP_GAP,
                BODY_TOP + (main_height - incoming_height) / 2 + above,
            )
        } else if group == 2 {
            let (above, _) = measure(order, groups, heights, 2, rank);
            (
                center_x + NODE_WIDTH + RELATIONSHIP_GAP,
                BODY_TOP + (main_height - outgoing_height) / 2 + above,
            )
        } else {
            let row = rows[node];
            proof {
                assert(order@.contains(node));
                lemma_rank_of(order@, node as int);
                let at = choose|at: int| 0 <= at < order@.len() && order@[at] == node;
                lemma_rank_of_listed(order@, at);
                lemma_stacked_monotonic(
                    order@,
                    groups@,
                    heights@,
                    3,
                    rank as nat,
                    order@.len(),
                );
                lemma_stacked_bound(order@, groups@, heights@, 3, rank as nat);
                assert(row == members(order@, groups@, 3, rank as nat) / 4);
                assert(row < order@.len());
                lemma_rest_rows(order@, groups@, row as int, order@.len());
                lemma_rest_rows(order@, groups@, row as int, rank as nat);
                assert(arranged(order@, rows@, heights@));
                lemma_tallest_bound(rows@, heights@, row as int, heights@.len());
            }
            let (_, found) = measure(order, &rows, heights, row, order.len());
            let (_, before) = measure(order, &rows, heights, row, rank);
            assert(found <= 4 && before <= 4);
            let row_width = repeated_extent(found, NODE_WIDTH, NODE_GAP);
            let top = top_of(&rows, heights, rest_start, NODE_GAP, row);
            let row_height = tallest_of(&rows, heights, row);
            assert(rows@[node as int] == row);
            assert(heights@[node as int] <= row_height);
            let column: i32 = to_i32(before);
            assert(0 <= column <= 4);
            assert(0 <= row_width <= 936);
            assert(0 <= column * (NODE_WIDTH + NODE_GAP) <= 960) by (nonlinear_arith)
                requires
                    0 <= column <= 4,
                    NODE_WIDTH + NODE_GAP == 240,
            ;
            (
                (width - row_width) / 2 + column * (NODE_WIDTH + NODE_GAP),
                top + (row_height - heights[node]) / 2,
            )
        };
        rects.push(Rect { x, y, width: NODE_WIDTH, height: heights[node] });
        node = node + 1;
    }
    let mut bottom: i32 = BODY_TOP + main_height;
    if rest > 0 {
        let row_count: usize = (rest + 3) / RELATIONSHIP_REST_COLUMNS;
        bottom = top_of(&rows, heights, rest_start, NODE_GAP, row_count) - NODE_GAP;
    }
    (rects, width, bottom + OUTER_MARGIN)
}

/// A point on the canvas.
pub open spec fn point(x: int, y: int) -> Point {
    Point { x: x as i32, y: y as i32 }
}

pub open spec fn right_of(rect: Rect) -> int {
    rect.x + rect.width
}

pub open spec fn bottom_of(rect: Rect) -> int {
    rect.y + rect.height
}

pub open spec fn mid_x(rect: Rect) -> int {
    rect.x + rect.width / 2
}

pub open spec fn mid_y(rect: Rect) -> int {
    rect.y + rect.height / 2
}

/// From the right side of the source to the left side of the target.
pub open spec fn horizontal_route(source: Rect, target: Rect) -> (BezierPath, Point) {
    let middle = (right_of(source) + target.x) / 2;
    (
        BezierPath {
            start: point(right_of(source), mid_y(source)),
            control_1: point(middle, mid_y(source)),
            control_2: point(middle, mid_y(target)),
            end: point(target.x as int, mid_y(target)),
        },
        point(middle, (mid_y(source) + mid_y(target)) / 2 - 10),
    )
}

fn horizontal_path(source: Rect, target: Rect) -> (route: (BezierPath, Point))
    requires
        placed(source),
        placed(target),
    ensures
        route == horizontal_route(source, target),
{
    let start = Point { x: source.right(), y: source.center_y() };
    let end = Point { x: target.x, y: target.center_y() };
    let middle_x: i32 = (start.x + end.x) / 2;
    (
        BezierPath {
            start,
            control_1: Point { x: middle_x, y: start.y },
            control_2: Point { x: middle_x, y: end.y },
            end,
        },
        Point { x: middle_x, y: (start.y + end.y) / 2 - 10 },
    )
}

/// From the bottom of the source to the top of the target.
pub open spec fn vertical_route(source: Rect, target: Rect) -> (BezierPath, Point) {
    let middle = (bottom_of(source) + target.y) / 2;
    (
        BezierPath {
            start: point(mid_x(source), bottom_of(source)),
            control_1: point(mid_x(source), middle),
            control_2: point(mid_x(target), middle),
            end: point(mid_x(target), target.y as int),
        },
        point((mid_x(source) + mid_x(target)) / 2, middle - 10),
    )
}

fn vertical_path(source: Rect, target: Rect) -> (route: (BezierPath, Point))
    requires
        placed(source),
        placed(target),
    ensures
        route == vertical_route(source, target),
{
    let start = Point { x: source.center_x(), y: source.bottom() };
    let end = Point { x: target.center_x(), y: target.y };
    let middle_y: i32 = (start.y + end.y) / 2;
    (
        BezierPath {
            start,
            control_1: Point { x: start.x, y: middle_y },
            control_2: Point { x: end.x, y: middle_y },
            end,
        },
        Point { x: (start.x + end.x) / 2, y: middle_y - 10 },
    )
}

/// Around the right sides of both rectangles.
pub open spec fn same_column_route(source: Rect, target: Rect) -> (BezierPath, Point) {
    let outside = larger(right_of(source), right_of(target)) + 48;
    (
        BezierPath {
            start: point(right_of(source), mid_y(source)),
            control_1: point(outside, mid_y(source)),
            control_2: point(outside, mid_y(target)),
            end: point(right_of(target), mid_y(target)),
        },
        point(outside, (mid_y(source) + mid_y(target)) / 2),
    )
}

fn same_column_path(source: Rect, target: Rect) -> (route: (BezierPath, Point))
    requires
        placed(source),
        placed(target),
    ensures
        route == same_column_route(source, target),
{
    let route_x: i32 = max_i32(source.right(), target.right()) + 48;
    let start = Point { x: source.right(), y: source.center_y() };
    let end = Point { x: target.right(), y: target.center_y() };
    (
        BezierPath {
            start,
            control_1: Point { x: route_x, y: start.y },
            control_2: Point { x: route_x, y: end.y },
            end,
        },
        Point { x: route_x, y: (start.y + end.y) / 2 },
    )
}

/// Around the bottoms of both rectangles.
pub open spec fn same_row_route(source: Rect, target: Rect) -> (BezierPath, Point) {
    let outside = larger(bottom_of(source), bottom_of(target)) + 48;
    (
        BezierPath {
            start: point(mid_x(source), bottom_of(source)),
            control_1: point(mid_x(source), outside),
            control_2: point(mid_x(target), outside),
            end: point(mid_x(target), bottom_of(target)),
        },
        point((mid_x(source) + mid_x(target)) / 2, outside),
    )
}

fn same_row_path(source: Rect, target: Rect) -> (route: (BezierPath, Point))
    requires
        placed(source),
        placed(target),
    ensures
        route == same_row_route(source, target),
{
    let route_y: i32 = max_i32(source.bottom(), target.bottom()) + 48;
    let start = Point { x: source.center_x(), y: source.bottom() };
    let end = Point { x: target.center_x(), y: target.bottom() };
    (
        BezierPath {
            start,
            control_1: Point { x: start.x, y: route_y },
            control_2: Point { x: end.x, y: route_y },
            end,
        },
        Point { x: (start.x + end.x) / 2, y: route_y },
    )
}

/// The same route travelled from its end to its start.
pub open spec fn reversed(route: (BezierPath, Point)) -> (BezierPath, Point) {
    (
        BezierPath {
            start: route.0.end,
            control_1: route.0.control_2,
            control_2: route.0.control_1,
            end: route.0.start,
        },
        route.1,
    )
}

fn reverse_route(route: (BezierPath, Point)) -> (back: (BezierPath, Point))
    ensures
        back == reversed(route),
{
    (
        BezierPath {
            start: route.0.end,
            control_1: route.0.control_2,
            control_2: route.0.control_1,
            end: route.0.start,
        },
        route.1,
    )
}

pub open spec fn distance(left: int, right: int) -> int {
    if left >= right {
        left - right
    } else {
        right - left
    }
}

/// Between two sides that face each other, along the greater distance.
pub open spec fn relationship_route(source: Rect, target: Rect) -> (BezierPath, Point) {
    if distance(mid_x(target), mid_x(source)) >= distance(mid_y(target), mid_y(source)) {
        if mid_x(target) >= mid_x(source) {
            horizontal_route(source, target)
        } else {
            reversed(horizontal_route(target, source))
        }
    } else if mid_y(target) >= mid_y(source) {
        vertical_route(source, target)
    } else {
        reversed(vertical_route(target, source))
    }
}

fn gap_between(left: i32, right: i32) -> (gap: i32)
    requires
        0 <= left <= 2_000_000,
        0 <= right <= 2_000_000,
    ensures
        gap == distance(left as int, right as int),
{
    if left >= right {
        left - right
    } else {
        right - left
    }
}

fn relationship_path(source: Rect, target: Rect) -> (route: (BezierPath, Point))
    requires
        placed(source),
        placed(target),
    ensures
        route == relationship_route(source, target),
{
    let horizontal_distance = gap_between(target.center_x(), source.center_x());
    let vertical_distance = gap_between(target.center_y(), source.center_y());
    if horizontal_distance >= vertical_distance {
        if target.center_x() >= source.center_x() {
            horizontal_path(source, target)
        } else {
            reverse_route(horizontal_path(target, source))
        }
    } else if target.center_y() >= source.center_y() {
        vertical_path(source, target)
    } else {
        reverse_route(vertical_path(target, source))
    }
}

/// A loop at the right side of a rectangle.
pub open spec fn loop_route(node: Rect) -> (BezierPath, Point) {
    let outside = right_of(node) + 52;
    (
        BezierPath {
            start: point(right_of(node), mid_y(node) - 12),
            control_1: point(outside, node.y - 24),
            control_2: point(outside, bottom_of(node) + 24),
            end: point(right_of(node), mid_y(node) + 12),
        },
        point(outside, mid_y(node)),
    )
}

fn self_loop(node: Rect) -> (route: (BezierPath, Point))
    requires
        placed(node),
    ensures
        route == loop_route(node),
{
    let start = Point { x: node.right(), y: node.center_y() - 12 };
    let end = Point { x: node.right(), y: node.center_y() + 12 };
    let loop_x: i32 = node.right() + 52;
    (
        BezierPath {
            start,
            control_1: Point { x: loop_x, y: node.y - 24 },
            control_2: Point { x: loop_x, y: node.bottom() + 24 },
            end,
        },
        Point { x: loop_x, y: node.center_y() },
    )
}

/// The route of an edge: a loop for an edge to itself, a direct route along the
/// direction of the diagram, and a way around for edges against it.
pub open spec fn edge_route(
    kind: DiagramKind,
    source: Rect,
    target: Rect,
    self_edge: bool,
    dashed: bool,
) -> (BezierPath, Point) {
    if self_edge {
        loop_route(source)
    } else {
        match kind {
            DiagramKind::Architecture => if !dashed && target.x > source.x {
                horizontal_route(source, target)
            } else {
                same_column_route(source, target)
            },
            DiagramKind::Flow => if !dashed && target.y > source.y {
                vertical_route(source, target)
            } else {
                same_row_route(source, target)
            },
            DiagramKind::Relationship => relationship_route(source, target),
        }
    }
}

fn route_edge(
    kind: DiagramKind,
    source: Rect,
    target: Rect,
    self_edge: bool,
    dashed: bool,
) -> (route: (BezierPath, Point))
    requires
        placed(source),
        placed(target),
    ensures
        route == edge_route(kind, source, target, self_edge, dashed),
{
    if self_edge {
        return self_loop(source);
    }
    match kind {
        DiagramKind::Architecture => if !dashed && target.x > source.x {
            horizontal_path(source, target)
        } else {
            same_column_path(source, target)
        },
        DiagramKind::Flow => if !dashed && target.y > source.y {
            vertical_path(source, target)
        } else {
            same_row_path(source, target)
        },
        DiagramKind::Relationship => relationship_path(source, target),
    }
}

/// A node in the order of node IDs.
pub struct NodeKey<'a> {
    pub node: &'a DiagramNode,
}

impl<'a> Ordered for NodeKey<'a> {
    open spec fn precedes(self, other: NodeKey<'a>) -> bool {
        text::before(self.node.id@, other.node.id@)
    }

    proof fn order_laws(a: NodeKey<'a>, b: NodeKey<'a>, c: NodeKey<'a>) {
        text::law_text_order(a.node.id@, b.node.id@, c.node.id@);
        text::law_text_order(b.node.id@, a.node.id@, c.node.id@);
    }

    fn comes_before(&self, other: &NodeKey<'a>) -> (before: bool) {
        text::text_before(self.node.id.as_str(), other.node.id.as_str())
    }
}

/// Whether one list of numbers comes before another in lexicographic order.
pub open spec fn numbers_before(left: Seq<u128>, right: Seq<u128>) -> bool
    decreases left.len(),
{
    if right.len() == 0 {
        false
    } else if left.len() == 0 {
        true
    } else if left[0] != right[0] {
        left[0] < right[0]
    } else {
        numbers_before(left.drop_first(), right.drop_first())
    }
}

pub proof fn lemma_numbers_order(a: Seq<u128>, b: Seq<u128>, c: Seq<u128>)
    ensures
        !numbers_before(a, a),
        numbers_before(a, b) && numbers_before(b, c) ==> numbers_before(a, c),
        numbers_before(a, b) || numbers_before(b, a) || a == b,
    decreases a.len() + b.len() + c.len(),
{
    let rest_a = if a.len() > 0 {
        a.drop_first()
    } else {
        a
    };
    let rest_b = if b.len() > 0 {
        b.drop_first()
    } else {
        b
    };
    let rest_c = if c.len() > 0 {
        c.drop_first()
    } else {
        c
    };
    if a.len() + b.len() + c.len() > 0 {
        lemma_numbers_order(rest_a, rest_b, rest_c);
    }
    if a.len() > 0 && b.len() > 0 && a[0] == b[0] && rest_a == rest_b {
        assert(a =~= seq![a[0]] + rest_a);
        assert(b =~= seq![b[0]] + rest_b);
    }
    if a.len() == 0 && b.len() == 0 {
        assert(a =~= b);
    }
}

pub open spec fn claim_values(ids: Seq<ClaimId>) -> Seq<u128> {
    ids.map_values(|id: ClaimId| id.value)
}

pub open spec fn evidence_values(ids: Seq<EvidenceId>) -> Seq<u128> {
    ids.map_values(|id: EvidenceId| id.value)
}

fn numbers_come_before(left: &Vec<u128>, right: &Vec<u128>) -> (before: bool)
    ensures
        before == numbers_before(left@, right@),
{
    let mut index: usize = 0;
    assert(left@.skip(0) =~= left@);
    assert(right@.skip(0) =~= right@);
    while index < left.len() && index < right.len()
        invariant
            index <= left@.len(),
            index <= right@.len(),
            numbers_before(left@, right@) == numbers_before(
                left@.skip(index as int),
                right@.skip(index as int),
            ),
        decreases left@.len() - index,
    {
        if left[index] != right[index] {
            return left[index] < right[index];
        }
        assert(left@.skip(index as int).drop_first() =~= left@.skip(index as int + 1));
        assert(right@.skip(index as int).drop_first() =~= right@.skip(index as int + 1));
        index = index + 1;
    }
    index < right.len()
}

fn claim_numbers(ids: &Vec<ClaimId>) -> (numbers: Vec<u128>)
    ensures
        numbers@ == claim_values(ids@),
{
    let mut numbers: Vec<u128> = Vec::new();
    let mut index: usize = 0;
    while index < ids.len()
        invariant
            index <= ids@.len(),
            numbers@.len() == index,
            forall|i: int| 0 <= i < index ==> #[trigger] numbers@[i] == ids@[i].value,
        decreases ids@.len() - index,
    {
        numbers.push(ids[index].value);
        index = index + 1;
    }
    assert(numbers@ =~= claim_values(ids@));
    numbers
}

fn evidence_numbers(ids: &Vec<EvidenceId>) -> (numbers: Vec<u128>)
    ensures
        numbers@ == evidence_values(ids@),
{
    let mut numbers: Vec<u128> = Vec::new();
    let mut index: usize = 0;
    while index < ids.len()
        invariant
            index <= ids@.len(),
            numbers@.len() == index,
            forall|i: int| 0 <= i < index ==> #[trigger] numbers@[i] == ids@[i].value,
        decreases ids@.len() - index,
    {
        numbers.push(ids[index].value);
        index = index + 1;
    }
    assert(numbers@ =~= evidence_values(ids@));
    numbers
}

/// An edge in the order of its ends, its label and its bindings.
pub struct EdgeKey<'a> {
    pub source_rank: usize,
    pub target_rank: usize,
    pub edge: &'a DiagramEdge,
}

impl<'a> Ordered for EdgeKey<'a> {
    open spec fn precedes(self, other: EdgeKey<'a>) -> bool {
        let claims = claim_values(self.edge.claim_ids@);
        let other_claims = claim_values(other.edge.claim_ids@);
        if self.source_rank != other.source_rank {
            self.source_rank < other.source_rank
        } else if self.target_rank != other.target_rank {
            self.target_rank < other.target_rank
        } else if self.edge.label@ != other.edge.label@ {
            text::before(self.edge.label@, other.edge.label@)
        } else if claims != other_claims {
            numbers_before(claims, other_claims)
        } else {
            numbers_before(
                evidence_values(self.edge.evidence_ids@),
                evidence_values(other.edge.evidence_ids@),
            )
        }
    }

    proof fn order_laws(a: EdgeKey<'a>, b: EdgeKey<'a>, c: EdgeKey<'a>) {
        text::law_text_order(a.edge.label@, b.edge.label@, c.edge.label@);
        text::law_text_order(b.edge.label@, a.edge.label@, c.edge.label@);
        let claims_a = claim_values(a.edge.claim_ids@);
        let claims_b = claim_values(b.edge.claim_ids@);
        let claims_c = claim_values(c.edge.claim_ids@);
        lemma_numbers_order(claims_a, claims_b, claims_c);
        lemma_numbers_order(claims_b, claims_a, claims_c);
        let evidence_a = evidence_values(a.edge.evidence_ids@);
        let evidence_b = evidence_values(b.edge.evidence_ids@);
        let evidence_c = evidence_values(c.edge.evidence_ids@);
        lemma_numbers_order(evidence_a, evidence_b, evidence_c);
        lemma_numbers_order(evidence_b, evidence_a, evidence_c);
        text::law_text_order(b.edge.label@, c.edge.label@, a.edge.label@);
        lemma_numbers_order(claims_b, claims_c, claims_a);
        lemma_numbers_order(evidence_b, evidence_c, evidence_a);
    }

    fn comes_before(&self, other: &EdgeKey<'a>) -> (before: bool) {
        if self.source_rank != other.source_rank {
            return self.source_rank < other.source_rank;
        }
        if self.target_rank != other.target_rank {
            return self.target_rank < other.target_rank;
        }
        if !text::same_text(self.edge.label.as_str(), other.edge.label.as_str()) {
            return text::text_before(self.edge.label.as_str(), other.edge.label.as_str());
        }
        let claims = claim_numbers(&self.edge.claim_ids);
        let other_claims = claim_numbers(&other.edge.claim_ids);
        let claims_first = numbers_come_before(&claims, &other_claims);
        let claims_last = numbers_come_before(&other_claims, &claims);
        proof {
            lemma_numbers_order(claims@, other_claims@, claims@);
            lemma_numbers_order(other_claims@, claims@, other_claims@);
        }
        if claims_first || claims_last {
            return claims_first;
        }
        numbers_come_before(
            &evidence_numbers(&self.edge.evidence_ids),
            &evidence_numbers(&other.edge.evidence_ids),
        )
    }
}

/// The nodes as keys of their order.
pub open spec fn node_keys<'a>(nodes: Seq<DiagramNode>) -> Seq<NodeKey<'a>> {
    Seq::new(nodes.len(), |i: int| NodeKey { node: &nodes[i] })
}

/// The edges as keys of their order, given the order of the nodes.
pub open spec fn edge_keys<'a>(
    edges: Seq<DiagramEdge>,
    endpoints: Seq<(usize, usize)>,
    canonical: Seq<usize>,
) -> Seq<EdgeKey<'a>> {
    Seq::new(
        edges.len(),
        |i: int|
            EdgeKey {
                source_rank: rank_of(canonical, endpoints[i].0 as int) as usize,
                target_rank: rank_of(canonical, endpoints[i].1 as int) as usize,
                edge: &edges[i],
            },
    )
}

/// The indices below a count, in order.
pub open spec fn counting(count: nat) -> Seq<usize> {
    Seq::new(count, |i: int| i as usize)
}

fn count_up(count: usize) -> (indices: Vec<usize>)
    ensures
        indices@ == counting(count as nat),
{
    let mut indices: Vec<usize> = Vec::new();
    let mut index: usize = 0;
    while index < count
        invariant
            index <= count,
            indices@.len() == index,
            forall|i: int| 0 <= i < index ==> #[trigger] indices@[i] == i,
        decreases count - index,
    {
        indices.push(index);
        index = index + 1;
    }
    assert(indices@ =~= counting(count as nat));
    indices
}

/// The nodes in the order of their IDs.
fn canonical_node_order(nodes: &Vec<DiagramNode>) -> (order: Vec<usize>)
    ensures
        sort::lists_in_order(node_keys(nodes@), order@),
{
    let mut keys: Vec<NodeKey> = Vec::new();
    let mut index: usize = 0;
    while index < nodes.len()
        invariant
            index <= nodes@.len(),
            keys@.len() == index,
            forall|i: int| 0 <= i < index ==> (#[trigger] keys@[i]).node == nodes@[i],
        decreases nodes@.len() - index,
    {
        keys.push(NodeKey { node: &nodes[index] });
        index = index + 1;
    }
    assert(keys@ =~= node_keys(nodes@));
    sort::sorted_indices(keys)
}

/// The edges in the order of their ends, labels and bindings.
fn edge_order(
    edges: &Vec<DiagramEdge>,
    endpoints: &[(usize, usize)],
    canonical: &Vec<usize>,
) -> (order: Vec<usize>)
    requires
        endpoints@.len() == edges@.len(),
    ensures
        sort::lists_in_order(edge_keys(edges@, endpoints@, canonical@), order@),
{
    let mut keys: Vec<EdgeKey> = Vec::new();
    let mut index: usize = 0;
    while index < edges.len()
        invariant
            index <= edges@.len(),
            endpoints@.len() == edges@.len(),
            keys@.len() == index,
            forall|i: int|
                0 <= i < index ==> #[trigger] keys@[i] == edge_keys(
                    edges@,
                    endpoints@,
                    canonical@,
                )[i],
        decreases edges@.len() - index,
    {
        let (source, target) = endpoints[index];
        keys.push(
            EdgeKey {
                source_rank: find_rank(canonical, source),
                target_rank: find_rank(canonical, target),
                edge: &edges[index],
            },
        );
        index = index + 1;
    }
    assert(keys@ =~= edge_keys(edges@, endpoints@, canonical@));
    sort::sorted_indices(keys)
}

/// Everything that fixes the layout of a diagram.
pub struct Plan {
    /// The nodes in the order of their IDs.
    pub canonical: Seq<usize>,
    /// The nodes in the order in which they are drawn.
    pub order: Seq<usize>,
    /// The edges in the order in which they are drawn.
    pub edge_order: Seq<usize>,
    pub layers: Seq<usize>,
    pub heights: Seq<i32>,
    pub rects: Seq<Rect>,
    pub focus: Option<usize>,
}

/// The display width of the title of a diagram.
pub open spec fn title_width(diagram: Diagram) -> int {
    wrap::units(wrap::xml_only(diagram.title@)) as int
}

/// What the plan of a diagram is, and the size of its canvas.
pub open spec fn plans(
    diagram: Diagram,
    endpoints: Seq<(usize, usize)>,
    plan: Plan,
    canvas: (int, int),
) -> bool {
    let nodes = diagram.nodes@;
    let title = title_width(diagram);
    &&& sort::lists_in_order(node_keys(nodes), plan.canonical)
    &&& plan.order == if diagram.kind == DiagramKind::Flow {
        counting(nodes.len())
    } else {
        plan.canonical
    }
    &&& if diagram.kind == DiagramKind::Flow {
        plan.edge_order == counting(diagram.edges@.len())
    } else {
        sort::lists_in_order(
            edge_keys(diagram.edges@, endpoints, plan.canonical),
            plan.edge_order,
        )
    }
    &&& plan.heights.len() == nodes.len()
    &&& forall|v: int|
        0 <= v < nodes.len() ==> #[trigger] plan.heights[v] == height_of_lines(
            wrap::wrapped(nodes[v].label@, NODE_LABEL_UNITS as nat).len() as int,
        )
    &&& layers::layered(endpoints, nodes.len() as int, plan.layers)
    &&& if nodes.len() == 0 {
        &&& plan.rects == Seq::<Rect>::empty()
        &&& plan.focus is None
        &&& canvas == (canvas_width(title, 0), EMPTY_HEIGHT as int)
    } else {
        match diagram.kind {
            DiagramKind::Architecture => {
                &&& plan.focus is None
                &&& canvas == column_canvas(plan.order, plan.layers, plan.heights, title)
                &&& rects_at(
                    plan.rects,
                    plan.heights,
                    column_places(plan.order, plan.layers, plan.heights, title),
                )
            },
            DiagramKind::Flow => {
                &&& plan.focus is None
                &&& canvas == row_canvas(plan.order, plan.layers, plan.heights, title)
                &&& rects_at(
                    plan.rects,
                    plan.heights,
                    row_places(plan.order, plan.layers, plan.heights, title),
                )
            },
            DiagramKind::Relationship => {
                let center = hub(plan.order, endpoints, plan.order.len());
                let groups = relation_groups(endpoints, center as int, nodes.len());
                &&& plan.focus == Some(center)
                &&& canvas == relation_canvas(
                    plan.order,
                    groups,
                    plan.heights,
                    center as int,
                    title,
                )
                &&& rects_at(
                    plan.rects,
                    plan.heights,
                    relation_places(plan.order, groups, plan.heights, center as int, title),
                )
            },
        }
    }
}

/// A node as the plan has it.
pub open spec fn node_follows(diagram: Diagram, plan: Plan, drawn: NodeLayout, v: usize) -> bool {
    &&& drawn.diagram_index == v
    &&& drawn.rect == plan.rects[v as int]
    &&& wrap::string_views(drawn.lines@) == wrap::wrapped(
        diagram.nodes@[v as int].label@,
        NODE_LABEL_UNITS as nat,
    )
    &&& drawn.focused == (plan.focus == Some(v))
}

/// An edge as the plan has it; edges on cycles are dashed.
pub open spec fn edge_follows(
    diagram: Diagram,
    endpoints: Seq<(usize, usize)>,
    plan: Plan,
    drawn: EdgeLayout,
    e: usize,
) -> bool {
    let (source, target) = endpoints[e as int];
    &&& drawn.diagram_index == e
    &&& drawn.source_index == source
    &&& drawn.target_index == target
    &&& drawn.dashed == layers::reaches(endpoints, target as int, source as int)
    &&& (drawn.path, drawn.label_position) == edge_route(
        diagram.kind,
        plan.rects[source as int],
        plan.rects[target as int],
        source == target,
        drawn.dashed,
    )
    &&& wrap::string_views(drawn.label_lines@) == wrap::wrapped(
        diagram.edges@[e as int].label@,
        EDGE_LABEL_UNITS as nat,
    )
}

/// A layout that follows a plan.
pub open spec fn follows(
    diagram: Diagram,
    endpoints: Seq<(usize, usize)>,
    plan: Plan,
    layout: Layout,
) -> bool {
    &&& plans(diagram, endpoints, plan, (layout.width as int, layout.height as int))
    &&& layout.nodes@.len() == plan.order.len()
    &&& forall|i: int|
        0 <= i < plan.order.len() ==> node_follows(
            diagram,
            plan,
            #[trigger] layout.nodes@[i],
            plan.order[i],
        )
    &&& layout.edges@.len() == plan.edge_order.len()
    &&& forall|i: int|
        0 <= i < plan.edge_order.len() ==> edge_follows(
            diagram,
            endpoints,
            plan,
            #[trigger] layout.edges@[i],
            plan.edge_order[i],
        )
}

/// The layout of a diagram.
pub open spec fn laid_out(
    diagram: Diagram,
    endpoints: Seq<(usize, usize)>,
    layout: Layout,
) -> bool {
    exists|plan: Plan| follows(diagram, endpoints, plan, layout)
}

/// A diagram that is small enough to be laid out, and the ends of its edges.
pub open spec fn fits(diagram: Diagram, endpoints: Seq<(usize, usize)>) -> bool {
    &&& diagram.nodes@.len() <= NODE_BOUND
    &&& diagram.edges@.len() <= 1_000
    &&& diagram.title@.len() <= 500
    &&& forall|v: int|
        0 <= v < diagram.nodes@.len() ==> (#[trigger] diagram.nodes@[v]).label@.len() <= 128
    &&& forall|e: int|
        0 <= e < diagram.edges@.len() ==> (#[trigger] diagram.edges@[e]).label@.len() <= 128
    &&& endpoints.len() == diagram.edges@.len()
    &&& layers::in_range(endpoints, diagram.nodes@.len() as int)
}

/// An order of indices lists no index twice.
pub proof fn lemma_listing_distinct<K: Ordered>(keys: Seq<K>, order: Seq<usize>)
    requires
        sort::lists_in_order(keys, order),
    ensures
        order.no_duplicates(),
{
    assert forall|i: int, j: int| 0 <= i < order.len() && 0 <= j < order.len() && i
        != j implies order[i] != order[j] by {
        if i < j {
            assert(sort::goes_first(keys, order[i] as int, order[j] as int));
        } else {
            assert(sort::goes_first(keys, order[j] as int, order[i] as int));
        }
        K::order_laws(keys[order[i] as int], keys[order[i] as int], keys[order[i] as int]);
    }
}

/// Wraps the labels of nodes and measures the nodes.
fn wrap_nodes(nodes: &Vec<DiagramNode>) -> (wrapped: (Vec<Vec<String>>, Vec<i32>))
    requires
        forall|v: int| 0 <= v < nodes@.len() ==> (#[trigger] nodes@[v]).label@.len() <= 128,
    ensures
        wrapped.0@.len() == nodes@.len(),
        wrapped.1@.len() == nodes@.len(),
        forall|v: int|
            0 <= v < nodes@.len() ==> wrap::string_views((#[trigger] wrapped.0@[v])@)
                == wrap::wrapped(nodes@[v].label@, NODE_LABEL_UNITS as nat),
        forall|v: int|
            0 <= v < nodes@.len() ==> #[trigger] wrapped.1@[v] == height_of_lines(
                wrap::wrapped(nodes@[v].label@, NODE_LABEL_UNITS as nat).len() as int,
            ),
        forall|v: int|
            0 <= v < nodes@.len() ==> NODE_MIN_HEIGHT <= #[trigger] wrapped.1@[v] <= HEIGHT_BOUND,
{
    let mut lines: Vec<Vec<String>> = Vec::new();
    let mut heights: Vec<i32> = Vec::new();
    let mut node: usize = 0;
    while node < nodes.len()
        invariant
            node <= nodes@.len(),
            forall|v: int| 0 <= v < nodes@.len() ==> (#[trigger] nodes@[v]).label@.len() <= 128,
            lines@.len() == node,
            heights@.len() == node,
            forall|v: int|
                0 <= v < node ==> wrap::string_views((#[trigger] lines@[v])@) == wrap::wrapped(
                    nodes@[v].label@,
                    NODE_LABEL_UNITS as nat,
                ),
            forall|v: int|
                0 <= v < node ==> #[trigger] heights@[v] == height_of_lines(
                    wrap::wrapped(nodes@[v].label@, NODE_LABEL_UNITS as nat).len() as int,
                ),
            forall|v: int|
                0 <= v < node ==> NODE_MIN_HEIGHT <= #[trigger] heights@[v] <= HEIGHT_BOUND,
        decreases nodes@.len() - node,
    {
        assert(nodes@[node as int].label@.len() <= 128);
        let label = nodes[node].label.as_str();
        let wrapped = wrap::wrap_text(label, NODE_LABEL_UNITS);
        proof {
            wrap::lemma_wrapped_count(label@, NODE_LABEL_UNITS as nat);
            assert(wrap::string_views(wrapped@).len() == wrapped@.len());
        }
        heights.push(node_height(wrapped.len()));
        lines.push(wrapped);
        node = node + 1;
    }
    (lines, heights)
}

proof fn lemma_route_bound(
    kind: DiagramKind,
    source: Rect,
    target: Rect,
    self_edge: bool,
    dashed: bool,
)
    requires
        placed(source),
        placed(target),
    ensures
        0 <= edge_route(kind, source, target, self_edge, dashed).1.x <= 4_000_000,
        0 <= edge_route(kind, source, target, self_edge, dashed).1.y <= 4_000_000,
{
}

proof fn lemma_node_drawable(diagram: Diagram, plan: Plan, drawn: NodeLayout, v: usize)
    requires
        node_follows(diagram, plan, drawn, v),
        placed(plan.rects[v as int]),
        diagram.nodes@[v as int].label@.len() <= 128,
    ensures
        crate::svg::node_fits(drawn),
{
    wrap::lemma_wrapped_count(diagram.nodes@[v as int].label@, NODE_LABEL_UNITS as nat);
    assert(wrap::string_views(drawn.lines@).len() == drawn.lines@.len());
}

proof fn lemma_edge_drawable(
    diagram: Diagram,
    endpoints: Seq<(usize, usize)>,
    plan: Plan,
    drawn: EdgeLayout,
    e: usize,
)
    requires
        edge_follows(diagram, endpoints, plan, drawn, e),
        placed(plan.rects[endpoints[e as int].0 as int]),
        placed(plan.rects[endpoints[e as int].1 as int]),
        diagram.edges@[e as int].label@.len() <= 128,
    ensures
        crate::svg::label_fits(drawn),
{
    let (source, target) = endpoints[e as int];
    lemma_route_bound(
        diagram.kind,
        plan.rects[source as int],
        plan.rects[target as int],
        source == target,
        drawn.dashed,
    );
    let label = diagram.edges@[e as int].label@;
    wrap::lemma_wrapped_count(label, EDGE_LABEL_UNITS as nat);
    wrap::law_wrapped_lines_fit(label, EDGE_LABEL_UNITS as nat);
    let views = wrap::string_views(drawn.label_lines@);
    assert(views.len() == drawn.label_lines@.len());
    assert forall|k: int| 0 <= k < drawn.label_lines@.len() implies (
    #[trigger] drawn.label_lines@[k])@.len() <= 1_000 by {
        assert(views[k] == drawn.label_lines@[k]@);
        assert(wrap::units(wrap::wrapped(label, EDGE_LABEL_UNITS as nat)[k]) <= EDGE_LABEL_UNITS);
        wrap::lemma_units_bound(views[k]);
    }
}

/// Lays a diagram out, given the ends of its edges.
pub fn build(diagram: &Diagram, endpoints: &[(usize, usize)]) -> (layout: Layout)
    requires
        fits(*diagram, endpoints@),
    ensures
        laid_out(*diagram, endpoints@, layout),
        0 <= layout.width,
        0 <= layout.height,
        crate::svg::drawable(*diagram, layout),
{
    let node_count = diagram.nodes.len();
    let canonical = canonical_node_order(&diagram.nodes);
    proof {
        lemma_listing_distinct(node_keys(diagram.nodes@), canonical@);
        wrap::lemma_xml_units(diagram.title@);
    }
    let title_units = wrap::display_units(diagram.title.as_str());
    let (lines, heights) = wrap_nodes(&diagram.nodes);
    let (layers, cycle_edges) = layers::graph_layers(node_count, endpoints);
    let flow = match diagram.kind {
        DiagramKind::Flow => true,
        _ => false,
    };
    let edge_sequence = if flow {
        count_up(diagram.edges.len())
    } else {
        edge_order(&diagram.edges, endpoints, &canonical)
    };
    let order = if flow {
        count_up(node_count)
    } else {
        canonical
    };
    let (rects, width, height, focus): (Vec<Rect>, i32, i32, Option<usize>) = if node_count == 0 {
        (Vec::new(), required_width(title_units, 0), EMPTY_HEIGHT, None)
    } else {
        match diagram.kind {
            DiagramKind::Architecture => {
                assert(arranged(order@, layers@, heights@));
                let (rects, width, height) = architecture_positions(
                    &order,
                    &layers,
                    &heights,
                    title_units,
                );
                (rects, width, height, None)
            },
            DiagramKind::Flow => {
                assert(arranged(order@, layers@, heights@));
                let (rects, width, height) = flow_positions(
                    &order,
                    &layers,
                    &heights,
                    title_units,
                );
                (rects, width, height, None)
            },
            DiagramKind::Relationship => {
                let center = relationship_center(&order, endpoints);
                let groups = relationship_groups(endpoints, center, node_count);
                assert(arranged(order@, groups@, heights@));
                let (rects, width, height) = relationship_positions(
                    &order,
                    &groups,
                    &heights,
                    center,
                    title_units,
                );
                (rects, width, height, Some(center))
            },
        }
    };
    let ghost plan = Plan {
        canonical: if flow {
            choose|c: Seq<usize>| sort::lists_in_order(node_keys(diagram.nodes@), c)
        } else {
            order@
        },
        order: order@,
        edge_order: edge_sequence@,
        layers: layers@,
        heights: heights@,
        rects: rects@,
        focus,
    };
    assert(plans(*diagram, endpoints@, plan, (width as int, height as int))) by {
        if node_count == 0 {
            assert(rects@ =~= Seq::<Rect>::empty());
        }
    }
    let nodes = draw_nodes(diagram, &order, &rects, lines, focus, Ghost(plan));
    let edges = draw_edges(diagram, endpoints, &edge_sequence, &rects, &cycle_edges, Ghost(plan));
    let layout = Layout { width, height, nodes, edges };
    assert(follows(*diagram, endpoints@, plan, layout));
    proof {
        assert forall|i: int| 0 <= i < layout.nodes@.len() implies crate::svg::node_fits(
            #[trigger] layout.nodes@[i],
        ) && layout.nodes@[i].diagram_index < diagram.nodes@.len() by {
            let v = order@[i];
            assert(node_follows(*diagram, plan, layout.nodes@[i], v));
            assert(placed(rects@[v as int]));
            assert(diagram.nodes@[v as int].label@.len() <= 128);
            lemma_node_drawable(*diagram, plan, layout.nodes@[i], v);
        }
        assert forall|i: int| 0 <= i < layout.edges@.len() implies crate::svg::label_fits(
            #[trigger] layout.edges@[i],
        ) && layout.edges@[i].diagram_index < diagram.edges@.len()
            && layout.edges@[i].source_index < diagram.nodes@.len()
            && layout.edges@[i].target_index < diagram.nodes@.len() by {
            let e = edge_sequence@[i];
            assert(edge_follows(*diagram, endpoints@, plan, layout.edges@[i], e));
            assert(endpoints@[e as int].0 < diagram.nodes@.len());
            assert(placed(rects@[endpoints@[e as int].0 as int]));
            assert(placed(rects@[endpoints@[e as int].1 as int]));
            assert(diagram.edges@[e as int].label@.len() <= 128);
            lemma_edge_drawable(*diagram, endpoints@, plan, layout.edges@[i], e);
        }
    }
    layout
}

fn copy_lines(lines: &Vec<String>) -> (copy: Vec<String>)
    ensures
        wrap::string_views(copy@) == wrap::string_views(lines@),
{
    let mut copy: Vec<String> = Vec::new();
    let mut index: usize = 0;
    while index < lines.len()
        invariant
            index <= lines@.len(),
            copy@.len() == index,
            forall|i: int| 0 <= i < index ==> (#[trigger] copy@[i])@ == lines@[i]@,
        decreases lines@.len() - index,
    {
        copy.push(lines[index].clone());
        index = index + 1;
    }
    assert(wrap::string_views(copy@) =~= wrap::string_views(lines@));
    copy
}

fn draw_nodes(
    diagram: &Diagram,
    order: &Vec<usize>,
    rects: &Vec<Rect>,
    lines: Vec<Vec<String>>,
    focus: Option<usize>,
    Ghost(plan): Ghost<Plan>,
) -> (nodes: Vec<NodeLayout>)
    requires
        plan.order == order@,
        plan.rects == rects@,
        plan.focus == focus,
        rects@.len() == diagram.nodes@.len(),
        lines@.len() == diagram.nodes@.len(),
        forall|i: int| 0 <= i < order@.len() ==> #[trigger] order@[i] < diagram.nodes@.len(),
        forall|v: int|
            0 <= v < lines@.len() ==> wrap::string_views((#[trigger] lines@[v])@) == wrap::wrapped(
                diagram.nodes@[v].label@,
                NODE_LABEL_UNITS as nat,
            ),
    ensures
        nodes@.len() == order@.len(),
        forall|i: int|
            0 <= i < order@.len() ==> node_follows(
                *diagram,
                plan,
                #[trigger] nodes@[i],
                order@[i],
            ),
{
    let mut nodes: Vec<NodeLayout> = Vec::new();
    let mut index: usize = 0;
    while index < order.len()
        invariant
            index <= order@.len(),
            plan.order == order@,
            plan.rects == rects@,
            plan.focus == focus,
            rects@.len() == diagram.nodes@.len(),
            lines@.len() == diagram.nodes@.len(),
            forall|i: int| 0 <= i < order@.len() ==> #[trigger] order@[i] < diagram.nodes@.len(),
            forall|v: int|
                0 <= v < lines@.len() ==> wrap::string_views((#[trigger] lines@[v])@)
                    == wrap::wrapped(diagram.nodes@[v].label@, NODE_LABEL_UNITS as nat),
            nodes@.len() == index,
            forall|i: int|
                0 <= i < index ==> node_follows(
                    *diagram,
                    plan,
                    #[trigger] nodes@[i],
                    order@[i],
                ),
        decreases order@.len() - index,
    {
        let node = order[index];
        let focused = match focus {
            Some(center) => center == node,
            None => false,
        };
        nodes.push(
            NodeLayout {
                diagram_index: node,
                rect: rects[node],
                lines: copy_lines(&lines[node]),
                focused,
            },
        );
        index = index + 1;
    }
    nodes
}

fn draw_edges(
    diagram: &Diagram,
    endpoints: &[(usize, usize)],
    order: &Vec<usize>,
    rects: &Vec<Rect>,
    cycle_edges: &Vec<bool>,
    Ghost(plan): Ghost<Plan>,
) -> (edges: Vec<EdgeLayout>)
    requires
        fits(*diagram, endpoints@),
        plan.edge_order == order@,
        plan.rects == rects@,
        rects@.len() == diagram.nodes@.len(),
        forall|v: int| 0 <= v < rects@.len() ==> placed(#[trigger] rects@[v]),
        cycle_edges@.len() == endpoints@.len(),
        forall|e: int|
            0 <= e < endpoints@.len() ==> #[trigger] cycle_edges@[e] == layers::reaches(
                endpoints@,
                endpoints@[e].1 as int,
                endpoints@[e].0 as int,
            ),
        forall|i: int| 0 <= i < order@.len() ==> #[trigger] order@[i] < diagram.edges@.len(),
    ensures
        edges@.len() == order@.len(),
        forall|i: int|
            0 <= i < order@.len() ==> edge_follows(
                *diagram,
                endpoints@,
                plan,
                #[trigger] edges@[i],
                order@[i],
            ),
{
    let mut edges: Vec<EdgeLayout> = Vec::new();
    let mut index: usize = 0;
    while index < order.len()
        invariant
            index <= order@.len(),
            fits(*diagram, endpoints@),
            plan.edge_order == order@,
            plan.rects == rects@,
            rects@.len() == diagram.nodes@.len(),
            forall|v: int| 0 <= v < rects@.len() ==> placed(#[trigger] rects@[v]),
            cycle_edges@.len() == endpoints@.len(),
            forall|e: int|
                0 <= e < endpoints@.len() ==> #[trigger] cycle_edges@[e] == layers::reaches(
                    endpoints@,
                    endpoints@[e].1 as int,
                    endpoints@[e].0 as int,
                ),
            forall|i: int| 0 <= i < order@.len() ==> #[trigger] order@[i] < diagram.edges@.len(),
            edges@.len() == index,
            forall|i: int|
                0 <= i < index ==> edge_follows(
                    *diagram,
                    endpoints@,
                    plan,
                    #[trigger] edges@[i],
                    order@[i],
                ),
        decreases order@.len() - index,
    {
        let edge = order[index];
        assert(order@[index as int] < diagram.edges@.len());
        assert(diagram.edges@[edge as int].label@.len() <= 128);
        let (source, target) = endpoints[edge];
        assert(endpoints@[edge as int].0 < diagram.nodes@.len());
        assert(placed(rects@[source as int]));
        assert(placed(rects@[target as int]));
        let dashed = cycle_edges[edge];
        let (path, label_position) = route_edge(
            diagram.kind,
            rects[source],
            rects[target],
            source == target,
            dashed,
        );
        edges.push(
            EdgeLayout {
                diagram_index: edge,
                source_index: source,
                target_index: target,
                path,
                label_position,
                label_lines: wrap::wrap_text(diagram.edges[edge].label.as_str(), EDGE_LABEL_UNITS),
                dashed,
            },
        );
        index = index + 1;
    }
    edges
}

/// In an architecture diagram an edge that lies on no cycle points to the right:
/// its target stands in a column behind the column of its source.
pub proof fn law_architecture_reads_left_to_right(
    diagram: Diagram,
    endpoints: Seq<(usize, usize)>,
    plan: Plan,
    canvas: (int, int),
    e: int,
)
    requires
        fits(diagram, endpoints),
        plans(diagram, endpoints, plan, canvas),
        diagram.kind == DiagramKind::Architecture,
        0 <= e < endpoints.len(),
        !layers::reaches(endpoints, endpoints[e].1 as int, endpoints[e].0 as int),
    ensures
        plan.rects[endpoints[e].1 as int].x >= plan.rects[endpoints[e].0 as int].x + NODE_WIDTH
            + ARCHITECTURE_LAYER_GAP,
{
    let source = endpoints[e].0 as int;
    let target = endpoints[e].1 as int;
    layers::law_cycle_edges_do_not_ascend(
        endpoints,
        diagram.nodes@.len() as int,
        plan.layers,
        e,
    );
    let places = column_places(plan.order, plan.layers, plan.heights, title_width(diagram));
    assert(rects_at(plan.rects, plan.heights, places));
    assert(plan.rects[source].x == places(source).0);
    assert(plan.rects[target].x == places(target).0);
    assert(plan.layers[target] * (NODE_WIDTH + ARCHITECTURE_LAYER_GAP) >= (plan.layers[source] + 1)
        * (NODE_WIDTH + ARCHITECTURE_LAYER_GAP)) by (nonlinear_arith)
        requires
            plan.layers[target] >= plan.layers[source] + 1,
            NODE_WIDTH + ARCHITECTURE_LAYER_GAP > 0,
    ;
}

pub proof fn lemma_rows_descend(
    groups: Seq<usize>,
    heights: Seq<i32>,
    start: int,
    gap: int,
    upper: nat,
    lower: nat,
)
    requires
        upper < lower,
        0 <= gap,
        groups.len() == heights.len(),
        forall|i: int|
            0 <= i < heights.len() ==> NODE_MIN_HEIGHT <= #[trigger] heights[i] <= HEIGHT_BOUND,
    ensures
        row_top(groups, heights, start, gap, lower) >= row_top(groups, heights, start, gap, upper)
            + tallest(groups, heights, upper as int, heights.len()) + gap,
    decreases lower,
{
    if upper + 1 < lower {
        lemma_rows_descend(groups, heights, start, gap, upper, (lower - 1) as nat);
        lemma_tallest_bound(groups, heights, lower - 1, heights.len());
    }
}

pub proof fn lemma_heights_bounded(
    diagram: Diagram,
    endpoints: Seq<(usize, usize)>,
    plan: Plan,
    canvas: (int, int),
)
    requires
        fits(diagram, endpoints),
        plans(diagram, endpoints, plan, canvas),
    ensures
        forall|i: int|
            0 <= i < plan.heights.len() ==> NODE_MIN_HEIGHT <= #[trigger] plan.heights[i]
                <= HEIGHT_BOUND,
{
    assert forall|i: int| 0 <= i < plan.heights.len() implies NODE_MIN_HEIGHT
        <= #[trigger] plan.heights[i] <= HEIGHT_BOUND by {
        assert(diagram.nodes@[i].label@.len() <= 128);
        wrap::lemma_wrapped_count(diagram.nodes@[i].label@, NODE_LABEL_UNITS as nat);
    }
}

/// In a flow diagram an edge that lies on no cycle points down: its target stands
/// below the bottom of its source, with the gap between layers in between.
pub proof fn law_flow_reads_top_down(
    diagram: Diagram,
    endpoints: Seq<(usize, usize)>,
    plan: Plan,
    canvas: (int, int),
    e: int,
)
    requires
        fits(diagram, endpoints),
        plans(diagram, endpoints, plan, canvas),
        diagram.kind == DiagramKind::Flow,
        0 <= e < endpoints.len(),
        !layers::reaches(endpoints, endpoints[e].1 as int, endpoints[e].0 as int),
    ensures
        plan.rects[endpoints[e].1 as int].y >= bottom_of(plan.rects[endpoints[e].0 as int])
            + FLOW_LAYER_GAP,
{
    let source = endpoints[e].0 as int;
    let target = endpoints[e].1 as int;
    layers::law_cycle_edges_do_not_ascend(
        endpoints,
        diagram.nodes@.len() as int,
        plan.layers,
        e,
    );
    lemma_heights_bounded(diagram, endpoints, plan, canvas);
    let places = row_places(plan.order, plan.layers, plan.heights, title_width(diagram));
    assert(rects_at(plan.rects, plan.heights, places));
    assert(plan.rects[source].y == places(source).1);
    assert(plan.rects[target].y == places(target).1);
    let upper = plan.layers[source] as nat;
    let lower = plan.layers[target] as nat;
    lemma_rows_descend(
        plan.layers,
        plan.heights,
        BODY_TOP as int,
        FLOW_LAYER_GAP as int,
        upper,
        lower,
    );
    lemma_tallest_bound(plan.layers, plan.heights, upper as int, plan.heights.len());
    lemma_tallest_bound(plan.layers, plan.heights, lower as int, plan.heights.len());
    assert(plan.heights[source] <= tallest(
        plan.layers,
        plan.heights,
        upper as int,
        plan.heights.len(),
    ));
    assert(plan.heights[target] <= tallest(
        plan.layers,
        plan.heights,
        lower as int,
        plan.heights.len(),
    ));
}

/// The centre of a relationship diagram has the greatest degree, and no node with
/// that degree comes before it.
pub proof fn law_hub_has_greatest_degree(
    order: Seq<usize>,
    endpoints: Seq<(usize, usize)>,
    count: nat,
) -> (at: int)
    requires
        1 <= count <= order.len(),
    ensures
        0 <= at < count,
        order[at] == hub(order, endpoints, count),
        forall|i: int|
            0 <= i < count ==> degree(endpoints, #[trigger] order[i] as int, endpoints.len())
                <= degree(endpoints, order[at] as int, endpoints.len()),
        forall|i: int|
            0 <= i < at ==> degree(endpoints, #[trigger] order[i] as int, endpoints.len())
                < degree(endpoints, order[at] as int, endpoints.len()),
    decreases count,
{
    if count == 1 {
        0
    } else {
        let best = law_hub_has_greatest_degree(order, endpoints, (count - 1) as nat);
        if degree(endpoints, order[count - 1] as int, endpoints.len()) > degree(
            endpoints,
            order[best] as int,
            endpoints.len(),
        ) {
            count - 1
        } else {
            best
        }
    }
}

/// A diagram has one plan and one canvas.
pub proof fn law_plan_is_unique(
    diagram: Diagram,
    endpoints: Seq<(usize, usize)>,
    first: Plan,
    first_canvas: (int, int),
    second: Plan,
    second_canvas: (int, int),
)
    requires
        fits(diagram, endpoints),
        plans(diagram, endpoints, first, first_canvas),
        plans(diagram, endpoints, second, second_canvas),
    ensures
        first == second,
        first_canvas == second_canvas,
{
    sort::law_listing_is_unique(node_keys(diagram.nodes@), first.canonical, second.canonical);
    if diagram.kind != DiagramKind::Flow {
        sort::law_listing_is_unique(
            edge_keys(diagram.edges@, endpoints, first.canonical),
            first.edge_order,
            second.edge_order,
        );
    }
    layers::law_layers_are_unique(
        endpoints,
        diagram.nodes@.len() as int,
        first.layers,
        second.layers,
    );
    assert(first.heights =~= second.heights);
    assert(first.rects =~= second.rects) by {
        if diagram.nodes@.len() > 0 {
            assert forall|v: int| 0 <= v < first.rects.len() implies first.rects[v]
                == second.rects[v] by {}
        }
    }
}

} // verus!
