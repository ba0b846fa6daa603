//! Architecture and relationship diagrams are drawn the same, whatever the order in
//! which their nodes and edges are given.
use crate::diagram;
use crate::diagram::DiagramRenderError;
use crate::evidence::{Diagram, DiagramEdge, DiagramKind, DiagramNode};
use crate::layers;
use crate::layout;
use crate::sort;
use crate::svg;
use crate::text;
use vstd::multiset::Multiset;
use vstd::prelude::*;

verus! {

/// The same diagram with its nodes and edges in another order.
pub open spec fn reordered(first: Diagram, second: Diagram) -> bool {
    &&& first.kind == second.kind
    &&& first.title == second.title
    &&& first.nodes@.to_multiset() == second.nodes@.to_multiset()
    &&& first.edges@.to_multiset() == second.edges@.to_multiset()
}

pub proof fn lemma_same_members<A>(first: Seq<A>, second: Seq<A>)
    requires
        first.to_multiset() == second.to_multiset(),
    ensures
        first.len() == second.len(),
        forall|x: A| first.contains(x) == second.contains(x),
{
    first.to_multiset_ensures();
    second.to_multiset_ensures();
    assert forall|x: A| first.contains(x) == second.contains(x) by {
        vstd::seq_lib::to_multiset_contains(first, x);
        vstd::seq_lib::to_multiset_contains(second, x);
    }
}

spec fn gathering<A, B>(f: spec_fn(A) -> B) -> spec_fn(A, Multiset<B>) -> Multiset<B> {
    |a: A, all: Multiset<B>| all.insert(f(a))
}

/// Mapped lists of the same members have the same members.
pub proof fn lemma_mapped_multiset<A, B>(first: Seq<A>, second: Seq<A>, f: spec_fn(A) -> B)
    requires
        first.to_multiset() == second.to_multiset(),
    ensures
        first.map_values(f).to_multiset() == second.map_values(f).to_multiset(),
{
    let step = gathering(f);
    assert(vstd::seq_lib::commutative_foldr(step)) by {
        assert forall|x: A, y: A, v: Multiset<B>| #[trigger] step(x, step(y, v)) == step(
            y,
            step(x, v),
        ) by {
            assert(v.insert(f(y)).insert(f(x)) =~= v.insert(f(x)).insert(f(y)));
        }
    }
    vstd::seq_lib::lemma_fold_right_permutation(first, second, step, Multiset::empty());
    lemma_mapped_fold(first, f, Multiset::empty());
    lemma_mapped_fold(second, f, Multiset::empty());
    let none = Multiset::<B>::empty();
    assert(first.map_values(f).to_multiset() =~= first.map_values(f).to_multiset().add(none));
    assert(second.map_values(f).to_multiset() =~= second.map_values(f).to_multiset().add(none));
}

proof fn lemma_mapped_fold<A, B>(s: Seq<A>, f: spec_fn(A) -> B, start: Multiset<B>)
    ensures
        s.fold_right(gathering(f), start) == s.map_values(f).to_multiset().add(start),
    decreases s.len(),
{
    broadcast use vstd::seq_lib::group_to_multiset_ensures;

    let step = gathering(f);
    if s.len() == 0 {
        assert(s.map_values(f) =~= Seq::<B>::empty());
        assert(s.map_values(f).to_multiset().add(start) =~= start);
    } else {
        let rest = s.drop_last();
        lemma_mapped_fold(rest, f, step(s.last(), start));
        assert(s.map_values(f) =~= rest.map_values(f).push(f(s.last())));
        assert(s.map_values(f).to_multiset().add(start) =~= rest.map_values(f).to_multiset().add(
            start.insert(f(s.last())),
        ));
    }
}

/// The members of a list in another order.
pub open spec fn picked<A>(s: Seq<A>, order: Seq<usize>) -> Seq<A> {
    order.map_values(|v: usize| s[v as int])
}

/// An order of all indices picks the same members.
pub proof fn lemma_picked_multiset<A>(s: Seq<A>, order: Seq<usize>)
    requires
        order.len() == s.len(),
        order.no_duplicates(),
        forall|i: int| 0 <= i < order.len() ==> #[trigger] order[i] < s.len(),
    ensures
        picked(s, order).to_multiset() == s.to_multiset(),
    decreases s.len(),
{
    broadcast use vstd::seq_lib::group_to_multiset_ensures;

    if s.len() == 0 {
        assert(picked(s, order) =~= s);
    } else {
        let k = order.last() as int;
        let rest = s.remove(k);
        let shifted = order.drop_last().map_values(
            |v: usize|
                if v > k {
                    (v - 1) as usize
                } else {
                    v
                },
        );
        assert forall|i: int| 0 <= i < shifted.len() implies #[trigger] shifted[i] < rest.len() by {
            assert(order[i] < s.len() && order[i] != order[order.len() - 1]);
        }
        assert forall|i: int, j: int| 0 <= i < shifted.len() && 0 <= j < shifted.len() && i
            != j implies shifted[i] != shifted[j] by {
            assert(order[i] != order[j]);
            assert(order[i] != order[order.len() - 1] && order[j] != order[order.len() - 1]);
        }
        lemma_picked_multiset(rest, shifted);
        assert forall|i: int| 0 <= i < shifted.len() implies #[trigger] picked(rest, shifted)[i]
            == picked(s, order).drop_last()[i] by {
            assert(order[i] != order[order.len() - 1]);
        }
        assert(picked(rest, shifted) =~= picked(s, order).drop_last());
        assert(picked(s, order) =~= picked(rest, shifted).push(s[k]));
        assert(s =~= rest.insert(k, s[k]));
        assert(picked(s, order).to_multiset() =~= s.to_multiset());
    }
}

/// Every edge of one graph, with its ends renamed, is an edge of the other.
spec fn carries(from: layers::Endpoints, into: layers::Endpoints, names: Seq<usize>) -> bool {
    forall|e: int|
        0 <= e < from.len() ==> layers::edge(
            into,
            names[(#[trigger] from[e]).0 as int] as int,
            names[from[e].1 as int] as int,
        )
}

/// Two graphs that differ in the names of their nodes only.
spec fn renames(
    first: layers::Endpoints,
    second: layers::Endpoints,
    to: Seq<usize>,
    back: Seq<usize>,
) -> bool {
    &&& to.len() == back.len()
    &&& forall|v: int| 0 <= v < to.len() ==> #[trigger] to[v] < back.len() && back[to[v] as int] == v
    &&& forall|w: int| 0 <= w < back.len() ==> #[trigger] back[w] < to.len() && to[back[w] as int] == w
    &&& layers::in_range(first, to.len() as int)
    &&& layers::in_range(second, to.len() as int)
    &&& carries(first, second, to)
    &&& carries(second, first, back)
}

proof fn lemma_edge_carried(
    from: layers::Endpoints,
    into: layers::Endpoints,
    names: Seq<usize>,
    u: int,
    v: int,
)
    requires
        carries(from, into, names),
        layers::edge(from, u, v),
    ensures
        layers::edge(into, names[u] as int, names[v] as int),
{
    let e = choose|e: int|
        0 <= e < from.len() && (#[trigger] from[e]).0 == u && from[e].1 == v;
    assert(layers::edge(into, names[from[e].0 as int] as int, names[from[e].1 as int] as int));
}

proof fn lemma_steps_carried(
    from: layers::Endpoints,
    into: layers::Endpoints,
    names: Seq<usize>,
    count: nat,
    u: int,
    v: int,
)
    requires
        carries(from, into, names),
        layers::steps(from, count, u, v),
    ensures
        layers::steps(into, count, names[u] as int, names[v] as int),
    decreases count,
{
    if count > 0 {
        let w = choose|w: int|
            layers::steps(from, (count - 1) as nat, u, w) && #[trigger] layers::edge(from, w, v);
        lemma_steps_carried(from, into, names, (count - 1) as nat, u, w);
        lemma_edge_carried(from, into, names, w, v);
    }
}

proof fn lemma_reaches_carried(
    from: layers::Endpoints,
    into: layers::Endpoints,
    names: Seq<usize>,
    u: int,
    v: int,
)
    requires
        carries(from, into, names),
        layers::reaches(from, u, v),
    ensures
        layers::reaches(into, names[u] as int, names[v] as int),
{
    let count = choose|count: nat| layers::steps(from, count, u, v);
    lemma_steps_carried(from, into, names, count, u, v);
}

/// Renaming keeps edges and chains.
proof fn lemma_renamed(
    first: layers::Endpoints,
    second: layers::Endpoints,
    to: Seq<usize>,
    back: Seq<usize>,
    u: int,
    v: int,
)
    requires
        renames(first, second, to, back),
        0 <= u < to.len(),
        0 <= v < to.len(),
    ensures
        layers::edge(first, u, v) == layers::edge(second, to[u] as int, to[v] as int),
        layers::reaches(first, u, v) == layers::reaches(second, to[u] as int, to[v] as int),
{
    assert(back[to[u] as int] == u && back[to[v] as int] == v);
    if layers::edge(first, u, v) {
        lemma_edge_carried(first, second, to, u, v);
    }
    if layers::edge(second, to[u] as int, to[v] as int) {
        lemma_edge_carried(second, first, back, to[u] as int, to[v] as int);
    }
    if layers::reaches(first, u, v) {
        lemma_reaches_carried(first, second, to, u, v);
    }
    if layers::reaches(second, to[u] as int, to[v] as int) {
        lemma_reaches_carried(second, first, back, to[u] as int, to[v] as int);
    }
}

/// The edge of one graph that another has under the names of its own.
proof fn lemma_entering(
    first: layers::Endpoints,
    second: layers::Endpoints,
    to: Seq<usize>,
    back: Seq<usize>,
    e: int,
    v: int,
) -> (found: int)
    requires
        renames(first, second, to, back),
        0 <= v < to.len(),
        0 <= e < first.len(),
        layers::enters(first, e, v),
    ensures
        0 <= found < second.len(),
        layers::enters(second, found, to[v] as int),
        second[found].0 == to[first[e].0 as int],
{
    let (source, target) = (first[e].0 as int, first[e].1 as int);
    assert(layers::edge(first, source, target));
    lemma_edge_carried(first, second, to, source, target);
    let found = choose|f: int|
        0 <= f < second.len() && (#[trigger] second[f]).0 == to[source] && second[f].1
            == to[target];
    lemma_renamed(first, second, to, back, target, v);
    lemma_renamed(first, second, to, back, v, target);
    lemma_renamed(first, second, to, back, target, source);
    found
}

proof fn lemma_renames_back(
    first: layers::Endpoints,
    second: layers::Endpoints,
    to: Seq<usize>,
    back: Seq<usize>,
)
    requires
        renames(first, second, to, back),
    ensures
        renames(second, first, back, to),
{
}

/// Renaming keeps layers.
proof fn lemma_layers_renamed(
    first: layers::Endpoints,
    second: layers::Endpoints,
    to: Seq<usize>,
    back: Seq<usize>,
    ours: Seq<usize>,
    theirs: Seq<usize>,
)
    requires
        renames(first, second, to, back),
        layers::layered(first, to.len() as int, ours),
        layers::layered(second, to.len() as int, theirs),
    ensures
        forall|v: int| 0 <= v < to.len() ==> theirs[#[trigger] to[v] as int] == ours[v],
{
    let moved = Seq::new(to.len(), |w: int| ours[back[w] as int]);
    assert forall|w: int| 0 <= w < to.len() implies #[trigger] layers::layer_fits(
        second,
        moved,
        w,
    ) by {
        let v = back[w] as int;
        assert(to[v] == w);
        assert(layers::layer_fits(first, ours, v));
        assert forall|e: int| 0 <= e < second.len() && #[trigger] layers::enters(
            second,
            e,
            w,
        ) implies moved[w] >= moved[second[e].0 as int] + 1 by {
            lemma_renames_back(first, second, to, back);
            let f = lemma_entering(second, first, back, to, e, w);
            assert(layers::enters(first, f, v));
            assert(second[e].0 < to.len());
        }
        if ours[v] != 0 {
            let e = choose|e: int|
                0 <= e < first.len() && #[trigger] layers::enters(first, e, v) && ours[v]
                    == ours[first[e].0 as int] + 1;
            let f = lemma_entering(first, second, to, back, e, v);
            assert(first[e].0 < to.len());
            assert(layers::enters(second, f, w));
            assert(back[to[first[e].0 as int] as int] == first[e].0);
            assert(moved[w] == moved[second[f].0 as int] + 1);
        }
    }
    layers::law_layers_are_unique(second, to.len() as int, moved, theirs);
    assert forall|v: int| 0 <= v < to.len() implies theirs[#[trigger] to[v] as int] == ours[v] by {
        assert(back[to[v] as int] == v);
    }
}

/// Nodes in order, and the same nodes under other names.
#[verifier::ext_equal]
pub struct Arrangement {
    pub order: Seq<usize>,
    pub groups: Seq<usize>,
    pub heights: Seq<i32>,
}

/// Two arrangements that differ in the names of the nodes only.
spec fn moved(first: Arrangement, second: Arrangement, to: Seq<usize>, back: Seq<usize>) -> bool {
    let count = to.len();
    &&& back.len() == count
    &&& first.order.len() == count
    &&& second.order.len() == count
    &&& first.groups.len() == count
    &&& second.groups.len() == count
    &&& first.heights.len() == count
    &&& second.heights.len() == count
    &&& first.order.no_duplicates()
    &&& second.order.no_duplicates()
    &&& forall|v: usize| v < count ==> #[trigger] first.order.contains(v)
    &&& forall|i: int| 0 <= i < count ==> #[trigger] first.order[i] < count
    &&& forall|i: int| 0 <= i < count ==> #[trigger] second.order[i] == to[first.order[i] as int]
    &&& forall|v: int|
        0 <= v < count ==> {
            &&& #[trigger] to[v] < count
            &&& back[to[v] as int] == v
            &&& second.groups[to[v] as int] == first.groups[v]
            &&& second.heights[to[v] as int] == first.heights[v]
        }
    &&& forall|w: int| 0 <= w < count ==> #[trigger] back[w] < count && to[back[w] as int] == w
}

proof fn lemma_rank_moved(
    first: Arrangement,
    second: Arrangement,
    to: Seq<usize>,
    back: Seq<usize>,
    v: int,
)
    requires
        moved(first, second, to, back),
        0 <= v < to.len(),
    ensures
        layout::rank_of(second.order, to[v] as int) == layout::rank_of(first.order, v),
        layout::rank_of(first.order, v) < to.len(),
{
    assert(first.order.contains(v as usize));
    let i = choose|i: int| 0 <= i < first.order.len() && first.order[i] == v as usize;
    layout::lemma_rank_of_listed(first.order, i);
    assert(second.order[i] == to[first.order[i] as int]);
    layout::lemma_rank_of_listed(second.order, i);
}

proof fn lemma_stacked_moved(
    first: Arrangement,
    second: Arrangement,
    to: Seq<usize>,
    back: Seq<usize>,
    group: int,
    count: nat,
)
    requires
        moved(first, second, to, back),
        count <= to.len(),
    ensures
        layout::stacked(second.order, second.groups, second.heights, group, count)
            == layout::stacked(first.order, first.groups, first.heights, group, count),
        layout::members(second.order, second.groups, group, count) == layout::members(
            first.order,
            first.groups,
            group,
            count,
        ),
    decreases count,
{
    if count > 0 {
        lemma_stacked_moved(first, second, to, back, group, (count - 1) as nat);
        let v = first.order[count - 1] as int;
        assert(second.order[count - 1] == to[v]);
        assert(second.groups[to[v] as int] == first.groups[v]);
    }
}

proof fn lemma_greatest_stack_moved(
    first: Arrangement,
    second: Arrangement,
    to: Seq<usize>,
    back: Seq<usize>,
    count: nat,
)
    requires
        moved(first, second, to, back),
    ensures
        layout::greatest_stack(second.order, second.groups, second.heights, count)
            == layout::greatest_stack(first.order, first.groups, first.heights, count),
    decreases count,
{
    if count > 0 {
        lemma_greatest_stack_moved(first, second, to, back, (count - 1) as nat);
        lemma_stacked_moved(first, second, to, back, count - 1, to.len());
    }
}

pub proof fn lemma_greatest(values: Seq<usize>, count: nat)
    requires
        count <= values.len(),
    ensures
        forall|v: int| 0 <= v < count ==> #[trigger] values[v] <= layout::greatest(values, count),
        layout::greatest(values, count) == 0 || exists|v: int|
            0 <= v < count && #[trigger] values[v] == layout::greatest(values, count),
    decreases count,
{
    if count > 0 {
        lemma_greatest(values, (count - 1) as nat);
        assert(values[count - 1] <= layout::greatest(values, count));
        if layout::greatest(values, count) != values[count - 1] && layout::greatest(values, count)
            != 0 {
            let v = choose|v: int|
                0 <= v < count - 1 && #[trigger] values[v] == layout::greatest(
                    values,
                    (count - 1) as nat,
                );
            assert(values[v] == layout::greatest(values, count));
        }
    }
}

proof fn lemma_greatest_moved(
    first: Arrangement,
    second: Arrangement,
    to: Seq<usize>,
    back: Seq<usize>,
)
    requires
        moved(first, second, to, back),
    ensures
        layout::greatest(second.groups, to.len()) == layout::greatest(first.groups, to.len()),
{
    lemma_greatest(first.groups, to.len());
    lemma_greatest(second.groups, to.len());
    let ours = layout::greatest(first.groups, to.len());
    let theirs = layout::greatest(second.groups, to.len());
    if ours != 0 {
        let v = choose|v: int| 0 <= v < to.len() && #[trigger] first.groups[v] == ours;
        assert(second.groups[to[v] as int] == ours);
    }
    if theirs != 0 {
        let w = choose|w: int| 0 <= w < to.len() && #[trigger] second.groups[w] == theirs;
        assert(to[back[w] as int] == w);
        assert(first.groups[back[w] as int] == theirs);
    }
}

proof fn lemma_tallest(groups: Seq<usize>, heights: Seq<i32>, group: int, count: nat)
    requires
        count <= groups.len(),
        groups.len() == heights.len(),
    ensures
        0 <= layout::tallest(groups, heights, group, count),
        forall|v: int|
            0 <= v < count && #[trigger] groups[v] == group ==> heights[v] <= layout::tallest(
                groups,
                heights,
                group,
                count,
            ),
        layout::tallest(groups, heights, group, count) == 0 || exists|v: int|
            0 <= v < count && #[trigger] groups[v] == group && heights[v] == layout::tallest(
                groups,
                heights,
                group,
                count,
            ),
    decreases count,
{
    if count > 0 {
        let rest = layout::tallest(groups, heights, group, (count - 1) as nat);
        lemma_tallest(groups, heights, group, (count - 1) as nat);
        let all = layout::tallest(groups, heights, group, count);
        if all == rest && rest != 0 {
            let v = choose|v: int|
                0 <= v < count - 1 && #[trigger] groups[v] == group && heights[v] == rest;
            assert(groups[v] == group && heights[v] == all);
        } else if all != 0 {
            assert(groups[count - 1] == group && heights[count - 1] == all);
        }
    }
}

proof fn lemma_tallest_moved(
    first: Arrangement,
    second: Arrangement,
    to: Seq<usize>,
    back: Seq<usize>,
    group: int,
)
    requires
        moved(first, second, to, back),
    ensures
        layout::tallest(second.groups, second.heights, group, to.len()) == layout::tallest(
            first.groups,
            first.heights,
            group,
            to.len(),
        ),
{
    lemma_tallest(first.groups, first.heights, group, to.len());
    lemma_tallest(second.groups, second.heights, group, to.len());
    let ours = layout::tallest(first.groups, first.heights, group, to.len());
    let theirs = layout::tallest(second.groups, second.heights, group, to.len());
    if ours != 0 {
        let v = choose|v: int|
            0 <= v < to.len() && #[trigger] first.groups[v] == group && first.heights[v] == ours;
        assert(second.groups[to[v] as int] == group);
        assert(second.heights[to[v] as int] == ours);
    }
    if theirs != 0 {
        let w = choose|w: int|
            0 <= w < to.len() && #[trigger] second.groups[w] == group && second.heights[w]
                == theirs;
        assert(to[back[w] as int] == w);
        assert(first.groups[back[w] as int] == group);
        assert(first.heights[back[w] as int] == theirs);
    }
}

proof fn lemma_row_top_moved(
    first: Arrangement,
    second: Arrangement,
    to: Seq<usize>,
    back: Seq<usize>,
    start: int,
    gap: int,
    row: nat,
)
    requires
        moved(first, second, to, back),
    ensures
        layout::row_top(second.groups, second.heights, start, gap, row) == layout::row_top(
            first.groups,
            first.heights,
            start,
            gap,
            row,
        ),
    decreases row,
{
    if row > 0 {
        lemma_row_top_moved(first, second, to, back, start, gap, (row - 1) as nat);
        lemma_tallest_moved(first, second, to, back, row - 1);
    }
}

/// Columns are the same under other names.
proof fn lemma_columns_moved(
    first: Arrangement,
    second: Arrangement,
    to: Seq<usize>,
    back: Seq<usize>,
    title: int,
)
    requires
        moved(first, second, to, back),
    ensures
        layout::column_canvas(second.order, second.groups, second.heights, title)
            == layout::column_canvas(first.order, first.groups, first.heights, title),
        forall|v: int|
            0 <= v < to.len() ==> layout::column_place(
                second.order,
                second.groups,
                second.heights,
                title,
                #[trigger] to[v] as int,
            ) == layout::column_place(first.order, first.groups, first.heights, title, v),
{
    lemma_greatest_moved(first, second, to, back);
    let columns = (layout::greatest(first.groups, to.len()) + 1) as nat;
    lemma_greatest_stack_moved(first, second, to, back, columns);
    assert forall|v: int| 0 <= v < to.len() implies layout::column_place(
        second.order,
        second.groups,
        second.heights,
        title,
        #[trigger] to[v] as int,
    ) == layout::column_place(first.order, first.groups, first.heights, title, v) by {
        let layer = first.groups[v] as int;
        lemma_rank_moved(first, second, to, back, v);
        lemma_stacked_moved(first, second, to, back, layer, to.len());
        lemma_stacked_moved(
            first,
            second,
            to,
            back,
            layer,
            layout::rank_of(first.order, v),
        );
    }
}

/// Adds the ends that an edge has at a node.
spec fn counting_ends(id: Seq<char>) -> spec_fn(DiagramEdge, int) -> int {
    |edge: DiagramEdge, total: int|
        total + (if edge.source@ == id {
            1int
        } else {
            0int
        }) + (if edge.target@ == id {
            1int
        } else {
            0int
        })
}

proof fn lemma_end_is_node(
    diagram: Diagram,
    endpoints: Seq<(usize, usize)>,
    e: int,
    v: int,
)
    requires
        diagram::resolves(diagram, endpoints),
        0 <= e < endpoints.len(),
        0 <= v < diagram.nodes@.len(),
    ensures
        (endpoints[e].0 == v) == (diagram.edges@[e].source@ == diagram.nodes@[v].id@),
        (endpoints[e].1 == v) == (diagram.edges@[e].target@ == diagram.nodes@[v].id@),
{
    let nodes = diagram.nodes@;
    let (source, target) = (endpoints[e].0 as int, endpoints[e].1 as int);
    assert(diagram::is_node(nodes, diagram.edges@[e].source@, endpoints[e].0));
    if source != v && nodes[source].id@ == nodes[v].id@ {
        if source < v {
            assert(nodes[source].id@ != nodes[v].id@);
        } else {
            assert(nodes[v].id@ != nodes[source].id@);
        }
    }
    if target != v && nodes[target].id@ == nodes[v].id@ {
        if target < v {
            assert(nodes[target].id@ != nodes[v].id@);
        } else {
            assert(nodes[v].id@ != nodes[target].id@);
        }
    }
}

proof fn lemma_degree_counts(
    diagram: Diagram,
    endpoints: Seq<(usize, usize)>,
    v: int,
    count: nat,
    start: int,
)
    requires
        diagram::resolves(diagram, endpoints),
        0 <= v < diagram.nodes@.len(),
        count <= endpoints.len(),
    ensures
        diagram.edges@.take(count as int).fold_right(
            counting_ends(diagram.nodes@[v].id@),
            start,
        ) == start + layout::degree(endpoints, v, count),
    decreases count,
{
    let step = counting_ends(diagram.nodes@[v].id@);
    if count > 0 {
        let edges = diagram.edges@.take(count as int);
        assert(edges.drop_last() =~= diagram.edges@.take(count - 1));
        assert(edges.last() == diagram.edges@[count - 1]);
        lemma_end_is_node(diagram, endpoints, count - 1, v);
        lemma_degree_counts(
            diagram,
            endpoints,
            v,
            (count - 1) as nat,
            step(edges.last(), start),
        );
    }
}

/// A node has as many ends of edges whatever the order.
proof fn lemma_same_degree(
    first: Diagram,
    first_ends: Seq<(usize, usize)>,
    second: Diagram,
    second_ends: Seq<(usize, usize)>,
    u: int,
    v: int,
)
    requires
        diagram::resolves(first, first_ends),
        diagram::resolves(second, second_ends),
        first.edges@.to_multiset() == second.edges@.to_multiset(),
        0 <= u < first.nodes@.len(),
        0 <= v < second.nodes@.len(),
        first.nodes@[u].id@ == second.nodes@[v].id@,
    ensures
        layout::degree(first_ends, u, first_ends.len()) == layout::degree(
            second_ends,
            v,
            second_ends.len(),
        ),
{
    let step = counting_ends(first.nodes@[u].id@);
    assert(vstd::seq_lib::commutative_foldr(step));
    vstd::seq_lib::lemma_fold_right_permutation(first.edges@, second.edges@, step, 0int);
    lemma_degree_counts(first, first_ends, u, first_ends.len(), 0);
    lemma_degree_counts(second, second_ends, v, second_ends.len(), 0);
    assert(first.edges@.take(first_ends.len() as int) =~= first.edges@);
    assert(second.edges@.take(second_ends.len() as int) =~= second.edges@);
}

/// The centre is the same node under another name.
proof fn lemma_hub_moved(
    first: Seq<usize>,
    first_ends: Seq<(usize, usize)>,
    second: Seq<usize>,
    second_ends: Seq<(usize, usize)>,
    to: Seq<usize>,
    count: nat,
)
    requires
        0 < first.len() == second.len() == to.len(),
        count <= to.len(),
        forall|i: int| 0 <= i < to.len() ==> #[trigger] first[i] < to.len(),
        forall|i: int| 0 <= i < to.len() ==> #[trigger] second[i] == to[first[i] as int],
        forall|v: int|
            0 <= v < to.len() ==> layout::degree(
                second_ends,
                #[trigger] to[v] as int,
                second_ends.len(),
            ) == layout::degree(first_ends, v, first_ends.len()),
    ensures
        layout::hub(first, first_ends, count) < to.len(),
        layout::hub(second, second_ends, count) == to[layout::hub(
            first,
            first_ends,
            count,
        ) as int],
    decreases count,
{
    if count > 1 {
        lemma_hub_moved(first, first_ends, second, second_ends, to, (count - 1) as nat);
        assert(second[count - 1] == to[first[count - 1] as int]);
        assert(first[count - 1] < to.len());
    } else {
        assert(second[0] == to[first[0] as int]);
        assert(first[0] < to.len());
    }
}

/// The rows of the nodes below are the same under other names.
proof fn lemma_rest_rows_moved(
    first: Arrangement,
    second: Arrangement,
    to: Seq<usize>,
    back: Seq<usize>,
)
    requires
        moved(first, second, to, back),
    ensures
        moved(
            Arrangement { groups: layout::rest_rows(first.order, first.groups), ..first },
            Arrangement { groups: layout::rest_rows(second.order, second.groups), ..second },
            to,
            back,
        ),
{
    let ours = layout::rest_rows(first.order, first.groups);
    let theirs = layout::rest_rows(second.order, second.groups);
    assert forall|v: int| 0 <= v < to.len() implies theirs[#[trigger] to[v] as int] == ours[v] by {
        lemma_rank_moved(first, second, to, back, v);
        lemma_stacked_moved(first, second, to, back, 3, layout::rank_of(first.order, v));
    }
}

/// The arrangement around a centre is the same under other names.
proof fn lemma_relations_moved(
    first: Arrangement,
    second: Arrangement,
    to: Seq<usize>,
    back: Seq<usize>,
    center: int,
    title: int,
)
    requires
        moved(first, second, to, back),
        0 <= center < to.len(),
    ensures
        layout::relation_canvas(
            second.order,
            second.groups,
            second.heights,
            to[center] as int,
            title,
        ) == layout::relation_canvas(first.order, first.groups, first.heights, center, title),
        forall|v: int|
            0 <= v < to.len() ==> layout::relation_place(
                second.order,
                second.groups,
                second.heights,
                to[center] as int,
                title,
                #[trigger] to[v] as int,
            ) == layout::relation_place(
                first.order,
                first.groups,
                first.heights,
                center,
                title,
                v,
            ),
{
    let all = to.len();
    let ours = Arrangement { groups: layout::rest_rows(first.order, first.groups), ..first };
    let theirs = Arrangement { groups: layout::rest_rows(second.order, second.groups), ..second };
    lemma_rest_rows_moved(first, second, to, back);
    lemma_stacked_moved(first, second, to, back, 1, all);
    lemma_stacked_moved(first, second, to, back, 2, all);
    lemma_stacked_moved(first, second, to, back, 3, all);
    assert(second.heights[to[center] as int] == first.heights[center]);
    let main = layout::relation_height(first.order, first.groups, first.heights, center);
    let rest = layout::members(first.order, first.groups, 3, all) as int;
    lemma_row_top_moved(
        ours,
        theirs,
        to,
        back,
        layout::BODY_TOP + main + layout::FLOW_LAYER_GAP,
        layout::NODE_GAP as int,
        ((rest + 3) / 4) as nat,
    );
    assert forall|v: int| 0 <= v < to.len() implies layout::relation_place(
        second.order,
        second.groups,
        second.heights,
        to[center] as int,
        title,
        #[trigger] to[v] as int,
    ) == layout::relation_place(
        first.order,
        first.groups,
        first.heights,
        center,
        title,
        v,
    ) by {
        let rank = layout::rank_of(first.order, v);
        let row = ours.groups[v] as int;
        lemma_rank_moved(first, second, to, back, v);
        lemma_stacked_moved(first, second, to, back, 1, rank);
        lemma_stacked_moved(first, second, to, back, 2, rank);
        lemma_stacked_moved(ours, theirs, to, back, row, rank);
        lemma_stacked_moved(ours, theirs, to, back, row, all);
        lemma_tallest_moved(ours, theirs, to, back, row);
        lemma_row_top_moved(
            ours,
            theirs,
            to,
            back,
            layout::BODY_TOP + main + layout::FLOW_LAYER_GAP,
            layout::NODE_GAP as int,
            row as nat,
        );
        assert(theirs.groups[to[v] as int] == ours.groups[v]);
    }
}

/// The node IDs of a diagram in an order of its nodes.
spec fn ids_in(nodes: Seq<DiagramNode>, order: Seq<usize>) -> Seq<Seq<char>> {
    Seq::new(order.len(), |i: int| nodes[order[i] as int].id@)
}

proof fn lemma_ids_in_order(nodes: Seq<DiagramNode>, order: Seq<usize>)
    requires
        diagram::distinct_ids(nodes, nodes.len() as int),
        nodes.len() <= layout::NODE_BOUND,
        sort::lists_in_order(layout::node_keys(nodes), order),
    ensures
        text::ascending(ids_in(nodes, order)),
        forall|id: Seq<char>|
            #[trigger] ids_in(nodes, order).contains(id) == diagram::has_node(nodes, id),
{
    let keys = layout::node_keys(nodes);
    let ids = ids_in(nodes, order);
    layout::lemma_listing_distinct(keys, order);
    assert forall|i: int, j: int| 0 <= i < j < ids.len() implies text::before(
        #[trigger] ids[i],
        #[trigger] ids[j],
    ) by {
        let (u, v) = (order[i] as int, order[j] as int);
        assert(sort::goes_first(keys, u, v));
        text::law_text_order(nodes[u].id@, nodes[v].id@, nodes[u].id@);
        assert(order[i] != order[j]);
        if u < v {
            assert(nodes[u].id@ != nodes[v].id@);
        } else {
            assert(nodes[v].id@ != nodes[u].id@);
        }
    }
    assert forall|id: Seq<char>| #[trigger] ids.contains(id) == diagram::has_node(nodes, id) by {
        if ids.contains(id) {
            let i = choose|i: int| 0 <= i < ids.len() && ids[i] == id;
            assert(nodes[order[i] as int].id@ == id);
        }
        if diagram::has_node(nodes, id) {
            let v = choose|v: int| 0 <= v < nodes.len() && (#[trigger] nodes[v]).id@ == id;
            lemma_listed_index(keys, order, v);
            let i = choose|i: int| 0 <= i < order.len() && order[i] == v;
            assert(ids[i] == id);
        }
    }
}

proof fn lemma_listed_index<K: sort::Ordered>(keys: Seq<K>, order: Seq<usize>, v: int)
    requires
        sort::lists_in_order(keys, order),
        0 <= v < keys.len() <= usize::MAX,
    ensures
        exists|i: int| 0 <= i < order.len() && order[i] == v,
{
    assert(order.contains(v as usize));
    let i = choose|i: int| 0 <= i < order.len() && order[i] == v as usize;
    assert(order[i] == v);
}

/// What an edge shows, with the places of its ends.
#[verifier::ext_equal]
struct EdgeShown {
    source: int,
    target: int,
    label: Seq<char>,
    claims: Seq<u128>,
    evidence: Seq<u128>,
}

spec fn shown_before(a: EdgeShown, b: EdgeShown) -> bool {
    if a.source != b.source {
        a.source < b.source
    } else if a.target != b.target {
        a.target < b.target
    } else if a.label != b.label {
        text::before(a.label, b.label)
    } else if a.claims != b.claims {
        layout::numbers_before(a.claims, b.claims)
    } else {
        layout::numbers_before(a.evidence, b.evidence)
    }
}

spec fn no_later() -> spec_fn(EdgeShown, EdgeShown) -> bool {
    |a: EdgeShown, b: EdgeShown| !shown_before(b, a)
}

proof fn lemma_shown_order(a: EdgeShown, b: EdgeShown, c: EdgeShown)
    ensures
        !shown_before(a, a),
        shown_before(a, b) ==> !shown_before(b, a),
        shown_before(a, b) || shown_before(b, a) || a == b,
        !shown_before(b, a) && !shown_before(c, b) ==> !shown_before(c, a),
{
    text::law_text_order(a.label, b.label, c.label);
    text::law_text_order(b.label, a.label, b.label);
    text::law_text_order(a.label, c.label, b.label);
    text::law_text_order(b.label, c.label, a.label);
    text::law_text_order(c.label, b.label, a.label);
    text::law_text_order(c.label, a.label, b.label);
    text::law_text_order(a.label, b.label, a.label);
    layout::lemma_numbers_order(a.claims, b.claims, c.claims);
    layout::lemma_numbers_order(b.claims, a.claims, b.claims);
    layout::lemma_numbers_order(a.claims, c.claims, b.claims);
    layout::lemma_numbers_order(b.claims, c.claims, a.claims);
    layout::lemma_numbers_order(c.claims, b.claims, a.claims);
    layout::lemma_numbers_order(c.claims, a.claims, b.claims);
    layout::lemma_numbers_order(a.claims, b.claims, a.claims);
    layout::lemma_numbers_order(a.evidence, b.evidence, c.evidence);
    layout::lemma_numbers_order(b.evidence, a.evidence, b.evidence);
    layout::lemma_numbers_order(a.evidence, c.evidence, b.evidence);
    layout::lemma_numbers_order(b.evidence, c.evidence, a.evidence);
    layout::lemma_numbers_order(c.evidence, b.evidence, a.evidence);
    layout::lemma_numbers_order(c.evidence, a.evidence, b.evidence);
    layout::lemma_numbers_order(a.evidence, b.evidence, a.evidence);
    if !shown_before(a, b) && !shown_before(b, a) {
        assert(a =~= b);
    }
}

proof fn lemma_no_later_is_total()
    ensures
        vstd::relations::total_ordering(no_later()),
{
    let leq = no_later();
    assert forall|a: EdgeShown| #[trigger] leq(a, a) by {
        lemma_shown_order(a, a, a);
    }
    assert forall|a: EdgeShown, b: EdgeShown| #[trigger] leq(a, b) && #[trigger] leq(
        b,
        a,
    ) implies a == b by {
        lemma_shown_order(a, b, a);
    }
    assert forall|a: EdgeShown, b: EdgeShown, c: EdgeShown| #[trigger] leq(a, b)
        && #[trigger] leq(b, c) implies leq(a, c) by {
        lemma_shown_order(a, b, c);
    }
    assert forall|a: EdgeShown, b: EdgeShown| #[trigger] leq(a, b) || #[trigger] leq(b, a) by {
        lemma_shown_order(a, b, a);
    }
}

/// The place of an ID in a list.
spec fn place_in(ids: Seq<Seq<char>>, id: Seq<char>) -> int {
    choose|i: int| 0 <= i < ids.len() && #[trigger] ids[i] == id
}

/// What an edge shows, given the IDs of the nodes in order.
spec fn shown_edge(ids: Seq<Seq<char>>) -> spec_fn(DiagramEdge) -> EdgeShown {
    |edge: DiagramEdge|
        EdgeShown {
            source: place_in(ids, edge.source@),
            target: place_in(ids, edge.target@),
            label: edge.label@,
            claims: layout::claim_values(edge.claim_ids@),
            evidence: layout::evidence_values(edge.evidence_ids@),
        }
}

spec fn shown_key(key: layout::EdgeKey<'_>) -> EdgeShown {
    EdgeShown {
        source: key.source_rank as int,
        target: key.target_rank as int,
        label: key.edge.label@,
        claims: layout::claim_values(key.edge.claim_ids@),
        evidence: layout::evidence_values(key.edge.evidence_ids@),
    }
}

proof fn lemma_place(
    nodes: Seq<DiagramNode>,
    order: Seq<usize>,
    id: Seq<char>,
    v: usize,
)
    requires
        diagram::distinct_ids(nodes, nodes.len() as int),
        nodes.len() <= layout::NODE_BOUND,
        sort::lists_in_order(layout::node_keys(nodes), order),
        v < nodes.len(),
        nodes[v as int].id@ == id,
    ensures
        place_in(ids_in(nodes, order), id) == layout::rank_of(order, v as int),
        layout::rank_of(order, v as int) < order.len(),
        order[layout::rank_of(order, v as int) as int] == v,
{
    let ids = ids_in(nodes, order);
    let keys = layout::node_keys(nodes);
    lemma_ids_in_order(nodes, order);
    layout::lemma_listing_distinct(keys, order);
    lemma_listed_index(keys, order, v as int);
    let i = choose|i: int| 0 <= i < order.len() && order[i] == v as int;
    layout::lemma_rank_of_listed(order, i);
    assert(ids[i] == id);
    let found = place_in(ids, id);
    assert(0 <= found < ids.len() && ids[found] == id);
    text::law_text_order(id, id, id);
    if found < i {
        assert(text::before(ids[found], ids[i]));
    } else if i < found {
        assert(text::before(ids[i], ids[found]));
    }
}

/// The edges of a diagram in their order, as they are shown.
proof fn lemma_edges_in_order(
    diagram: Diagram,
    endpoints: Seq<(usize, usize)>,
    order: Seq<usize>,
    edge_order: Seq<usize>,
)
    requires
        diagram::resolves(diagram, endpoints),
        diagram.nodes@.len() <= layout::NODE_BOUND,
        sort::lists_in_order(layout::node_keys(diagram.nodes@), order),
        sort::lists_in_order(layout::edge_keys(diagram.edges@, endpoints, order), edge_order),
    ensures
        ({
            let all = diagram.edges@.map_values(shown_edge(ids_in(diagram.nodes@, order)));
            &&& vstd::relations::sorted_by(picked(all, edge_order), no_later())
            &&& picked(all, edge_order).to_multiset() == all.to_multiset()
            &&& forall|k: int|
                0 <= k < endpoints.len() ==> {
                    &&& (#[trigger] all[k]).source == layout::rank_of(order, endpoints[k].0 as int)
                    &&& all[k].target == layout::rank_of(order, endpoints[k].1 as int)
                    &&& 0 <= all[k].source < order.len()
                    &&& 0 <= all[k].target < order.len()
                    &&& order[all[k].source] == endpoints[k].0
                    &&& order[all[k].target] == endpoints[k].1
                }
        }),
{
    let nodes = diagram.nodes@;
    let edges = diagram.edges@;
    let keys = layout::edge_keys(edges, endpoints, order);
    let all = edges.map_values(shown_edge(ids_in(nodes, order)));
    assert forall|k: int| 0 <= k < endpoints.len() implies {
        &&& (#[trigger] all[k]).source == layout::rank_of(order, endpoints[k].0 as int)
        &&& all[k].target == layout::rank_of(order, endpoints[k].1 as int)
        &&& 0 <= all[k].source < order.len()
        &&& 0 <= all[k].target < order.len()
        &&& order[all[k].source] == endpoints[k].0
        &&& order[all[k].target] == endpoints[k].1
    } by {
        assert(diagram::is_node(nodes, edges[k].source@, endpoints[k].0));
        lemma_place(nodes, order, edges[k].source@, endpoints[k].0);
        lemma_place(nodes, order, edges[k].target@, endpoints[k].1);
    }
    assert forall|k: int| 0 <= k < keys.len() implies shown_key(#[trigger] keys[k]) == all[k] by {
        assert(all[k].source == layout::rank_of(order, endpoints[k].0 as int));
    }
    layout::lemma_listing_distinct(keys, edge_order);
    lemma_picked_multiset(all, edge_order);
    let listed = picked(all, edge_order);
    let leq = no_later();
    assert forall|i: int, j: int| 0 <= i < j < listed.len() implies #[trigger] leq(
        listed[i],
        listed[j],
    ) by {
        let (u, v) = (edge_order[i] as int, edge_order[j] as int);
        assert(sort::goes_first(keys, u, v));
        assert(shown_key(keys[u]) == all[u] && shown_key(keys[v]) == all[v]);
        lemma_shown_order(all[u], all[v], all[u]);
        lemma_precedes(keys[u], keys[v]);
        lemma_precedes(keys[v], keys[u]);
    }
}

proof fn lemma_precedes(a: layout::EdgeKey<'_>, b: layout::EdgeKey<'_>)
    ensures
        sort::Ordered::precedes(a, b) == shown_before(shown_key(a), shown_key(b)),
{
}

/// The matching of the nodes of a diagram with those of the same diagram in another
/// order.
spec fn matching(first: Diagram, second: Diagram) -> Seq<usize> {
    Seq::new(
        first.nodes@.len(),
        |v: int|
            (choose|w: int|
                0 <= w < second.nodes@.len() && #[trigger] second.nodes@[w] == first.nodes@[v])
                as usize,
    )
}

proof fn lemma_matching(first: Diagram, second: Diagram)
    requires
        first.nodes@.to_multiset() == second.nodes@.to_multiset(),
        first.nodes@.len() <= layout::NODE_BOUND,
    ensures
        first.nodes@.len() == second.nodes@.len(),
        forall|v: int|
            0 <= v < first.nodes@.len() ==> (#[trigger] matching(first, second)[v])
                < second.nodes@.len() && second.nodes@[matching(first, second)[v] as int]
                == first.nodes@[v],
{
    lemma_same_members(first.nodes@, second.nodes@);
    assert forall|v: int| 0 <= v < first.nodes@.len() implies (#[trigger] matching(
        first,
        second,
    )[v]) < second.nodes@.len() && second.nodes@[matching(first, second)[v] as int]
        == first.nodes@[v] by {
        assert(first.nodes@.contains(first.nodes@[v]));
        assert(second.nodes@.contains(first.nodes@[v]));
        let w = choose|w: int| 0 <= w < second.nodes@.len() && second.nodes@[w] == first.nodes@[v];
        assert(second.nodes@[w] == first.nodes@[v]);
    }
}

proof fn lemma_same_id(nodes: Seq<DiagramNode>, u: int, v: int)
    requires
        diagram::distinct_ids(nodes, nodes.len() as int),
        0 <= u < nodes.len(),
        0 <= v < nodes.len(),
        nodes[u].id@ == nodes[v].id@,
    ensures
        u == v,
{
    if u < v {
        assert(nodes[u].id@ != nodes[v].id@);
    } else if v < u {
        assert(nodes[v].id@ != nodes[u].id@);
    }
}

proof fn lemma_carries(
    first: Diagram,
    first_ends: Seq<(usize, usize)>,
    second: Diagram,
    second_ends: Seq<(usize, usize)>,
)
    requires
        reordered(first, second),
        first.nodes@.len() <= layout::NODE_BOUND,
        diagram::resolves(first, first_ends),
        diagram::resolves(second, second_ends),
    ensures
        carries(first_ends, second_ends, matching(first, second)),
{
    let to = matching(first, second);
    lemma_matching(first, second);
    lemma_same_members(first.edges@, second.edges@);
    assert forall|e: int| 0 <= e < first_ends.len() implies layers::edge(
        second_ends,
        to[(#[trigger] first_ends[e]).0 as int] as int,
        to[first_ends[e].1 as int] as int,
    ) by {
        let (source, target) = (first_ends[e].0 as int, first_ends[e].1 as int);
        let edge = first.edges@[e];
        assert(diagram::is_node(first.nodes@, edge.source@, first_ends[e].0));
        assert(first.edges@.contains(edge));
        assert(second.edges@.contains(edge));
        let f = choose|f: int| 0 <= f < second.edges@.len() && second.edges@[f] == edge;
        assert(to[source] < second.nodes@.len() && to[target] < second.nodes@.len());
        lemma_end_is_node(second, second_ends, f, to[source] as int);
        lemma_end_is_node(second, second_ends, f, to[target] as int);
        assert(second_ends[f].0 == to[source] && second_ends[f].1 == to[target]);
    }
}

proof fn lemma_renaming(
    first: Diagram,
    first_ends: Seq<(usize, usize)>,
    second: Diagram,
    second_ends: Seq<(usize, usize)>,
)
    requires
        reordered(first, second),
        first.nodes@.len() <= layout::NODE_BOUND,
        diagram::resolves(first, first_ends),
        diagram::resolves(second, second_ends),
    ensures
        renames(
            first_ends,
            second_ends,
            matching(first, second),
            matching(second, first),
        ),
{
    let to = matching(first, second);
    let back = matching(second, first);
    lemma_matching(first, second);
    lemma_matching(second, first);
    lemma_carries(first, first_ends, second, second_ends);
    lemma_carries(second, second_ends, first, first_ends);
    assert forall|v: int| 0 <= v < to.len() implies #[trigger] to[v] < back.len()
        && back[to[v] as int] == v by {
        assert(back[to[v] as int] < first.nodes@.len());
        lemma_same_id(first.nodes@, back[to[v] as int] as int, v);
    }
    assert forall|w: int| 0 <= w < back.len() implies #[trigger] back[w] < to.len()
        && to[back[w] as int] == w by {
        assert(to[back[w] as int] < second.nodes@.len());
        lemma_same_id(second.nodes@, to[back[w] as int] as int, w);
    }
    assert forall|e: int| 0 <= e < first_ends.len() implies (#[trigger] first_ends[e]).0 < to.len()
        && first_ends[e].1 < to.len() by {
        assert(diagram::is_node(first.nodes@, first.edges@[e].source@, first_ends[e].0));
    }
    assert forall|e: int| 0 <= e < second_ends.len() implies (#[trigger] second_ends[e]).0
        < to.len() && second_ends[e].1 < to.len() by {
        assert(diagram::is_node(second.nodes@, second.edges@[e].source@, second_ends[e].0));
    }
}

/// The nodes of both diagrams in order are the same nodes.
proof fn lemma_orders_match(
    first: Diagram,
    second: Diagram,
    ours: Seq<usize>,
    theirs: Seq<usize>,
)
    requires
        reordered(first, second),
        first.nodes@.len() <= layout::NODE_BOUND,
        diagram::distinct_ids(first.nodes@, first.nodes@.len() as int),
        diagram::distinct_ids(second.nodes@, second.nodes@.len() as int),
        sort::lists_in_order(layout::node_keys(first.nodes@), ours),
        sort::lists_in_order(layout::node_keys(second.nodes@), theirs),
    ensures
        ids_in(first.nodes@, ours) == ids_in(second.nodes@, theirs),
        ours.len() == theirs.len() == first.nodes@.len(),
        forall|i: int|
            0 <= i < ours.len() ==> #[trigger] theirs[i] == matching(first, second)[ours[i] as int],
{
    let to = matching(first, second);
    let a = ids_in(first.nodes@, ours);
    let b = ids_in(second.nodes@, theirs);
    lemma_matching(first, second);
    lemma_matching(second, first);
    lemma_ids_in_order(first.nodes@, ours);
    lemma_ids_in_order(second.nodes@, theirs);
    assert forall|id: Seq<char>| a.contains(id) == b.contains(id) by {
        if diagram::has_node(first.nodes@, id) {
            let v = choose|v: int|
                0 <= v < first.nodes@.len() && (#[trigger] first.nodes@[v]).id@ == id;
            assert(second.nodes@[to[v] as int].id@ == id);
        }
        if diagram::has_node(second.nodes@, id) {
            let w = choose|w: int|
                0 <= w < second.nodes@.len() && (#[trigger] second.nodes@[w]).id@ == id;
            assert(first.nodes@[matching(second, first)[w] as int].id@ == id);
        }
    }
    text::lemma_ascending_is_unique(a, b);
    assert forall|i: int| 0 <= i < ours.len() implies #[trigger] theirs[i]
        == to[ours[i] as int] by {
        assert(a[i] == b[i]);
        assert(ours[i] < first.nodes@.len() && theirs[i] < second.nodes@.len());
        assert(to[ours[i] as int] < second.nodes@.len());
        lemma_same_id(second.nodes@, theirs[i] as int, to[ours[i] as int] as int);
    }
}

/// Two plans for the same diagram in different orders.
spec fn plans_match(
    first: Diagram,
    first_ends: Seq<(usize, usize)>,
    ours: layout::Plan,
    second: Diagram,
    second_ends: Seq<(usize, usize)>,
    theirs: layout::Plan,
) -> bool {
    let to = matching(first, second);
    &&& ours.order.len() == theirs.order.len() == first.nodes@.len()
    &&& forall|i: int| 0 <= i < ours.order.len() ==> #[trigger] ours.order[i] < to.len()
    &&& forall|i: int|
        0 <= i < ours.order.len() ==> #[trigger] theirs.order[i] == to[ours.order[i] as int]
    &&& forall|v: int| 0 <= v < to.len() ==> theirs.rects[#[trigger] to[v] as int] == ours.rects[v]
    &&& ours.focus is Some == theirs.focus is Some
    &&& ours.focus is Some ==> ours.focus->0 < to.len() && theirs.focus->0
        == to[ours.focus->0 as int]
    &&& ours.edge_order.len() == theirs.edge_order.len() == first_ends.len()
    &&& forall|i: int|
        0 <= i < ours.edge_order.len() ==> edges_match(
            first,
            first_ends,
            #[trigger] ours.edge_order[i] as int,
            second,
            second_ends,
            theirs.edge_order[i] as int,
        )
}

/// Two edges that show the same between the same nodes.
spec fn edges_match(
    first: Diagram,
    first_ends: Seq<(usize, usize)>,
    ours: int,
    second: Diagram,
    second_ends: Seq<(usize, usize)>,
    theirs: int,
) -> bool {
    let to = matching(first, second);
    let a = first.edges@[ours];
    let b = second.edges@[theirs];
    &&& 0 <= ours < first_ends.len()
    &&& 0 <= theirs < second_ends.len()
    &&& second_ends[theirs].0 == to[first_ends[ours].0 as int]
    &&& second_ends[theirs].1 == to[first_ends[ours].1 as int]
    &&& a.label@ == b.label@
    &&& layout::claim_values(a.claim_ids@) == layout::claim_values(b.claim_ids@)
    &&& layout::evidence_values(a.evidence_ids@) == layout::evidence_values(b.evidence_ids@)
}

proof fn lemma_edge_orders_match(
    first: Diagram,
    first_ends: Seq<(usize, usize)>,
    second: Diagram,
    second_ends: Seq<(usize, usize)>,
    ours: Seq<usize>,
    our_edges: Seq<usize>,
    theirs: Seq<usize>,
    their_edges: Seq<usize>,
)
    requires
        reordered(first, second),
        first.nodes@.len() <= layout::NODE_BOUND,
        diagram::resolves(first, first_ends),
        diagram::resolves(second, second_ends),
        sort::lists_in_order(layout::node_keys(first.nodes@), ours),
        sort::lists_in_order(layout::node_keys(second.nodes@), theirs),
        sort::lists_in_order(layout::edge_keys(first.edges@, first_ends, ours), our_edges),
        sort::lists_in_order(layout::edge_keys(second.edges@, second_ends, theirs), their_edges),
    ensures
        our_edges.len() == their_edges.len() == first_ends.len(),
        forall|i: int|
            0 <= i < our_edges.len() ==> edges_match(
                first,
                first_ends,
                #[trigger] our_edges[i] as int,
                second,
                second_ends,
                their_edges[i] as int,
            ),
{
    lemma_orders_match(first, second, ours, theirs);
    lemma_edges_in_order(first, first_ends, ours, our_edges);
    lemma_edges_in_order(second, second_ends, theirs, their_edges);
    lemma_same_members(first.edges@, second.edges@);
    let f = shown_edge(ids_in(first.nodes@, ours));
    let a = first.edges@.map_values(f);
    let b = second.edges@.map_values(f);
    lemma_mapped_multiset(first.edges@, second.edges@, f);
    lemma_no_later_is_total();
    vstd::seq_lib::lemma_sorted_unique(
        picked(a, our_edges),
        picked(b, their_edges),
        no_later(),
    );
    assert forall|i: int| 0 <= i < our_edges.len() implies edges_match(
        first,
        first_ends,
        #[trigger] our_edges[i] as int,
        second,
        second_ends,
        their_edges[i] as int,
    ) by {
        let (d, e) = (our_edges[i] as int, their_edges[i] as int);
        assert(picked(a, our_edges)[i] == picked(b, their_edges)[i]);
        assert(a[d] == b[e]);
        assert(our_edges[i] < first.edges@.len() && their_edges[i] < second.edges@.len());
        assert(theirs[a[d].source] == matching(first, second)[ours[a[d].source] as int]);
        assert(theirs[a[d].target] == matching(first, second)[ours[a[d].target] as int]);
    }
}

proof fn lemma_plans_match(
    first: Diagram,
    first_ends: Seq<(usize, usize)>,
    ours: layout::Plan,
    our_canvas: (int, int),
    second: Diagram,
    second_ends: Seq<(usize, usize)>,
    theirs: layout::Plan,
    their_canvas: (int, int),
)
    requires
        reordered(first, second),
        first.kind != DiagramKind::Flow,
        first.nodes@.len() <= layout::NODE_BOUND,
        diagram::resolves(first, first_ends),
        diagram::resolves(second, second_ends),
        layout::plans(first, first_ends, ours, our_canvas),
        layout::plans(second, second_ends, theirs, their_canvas),
    ensures
        our_canvas == their_canvas,
        plans_match(first, first_ends, ours, second, second_ends, theirs),
{
    let to = matching(first, second);
    let back = matching(second, first);
    let title = layout::title_width(first);
    lemma_matching(first, second);
    lemma_matching(second, first);
    lemma_renaming(first, first_ends, second, second_ends);
    lemma_orders_match(first, second, ours.order, theirs.order);
    lemma_edge_orders_match(
        first,
        first_ends,
        second,
        second_ends,
        ours.order,
        ours.edge_order,
        theirs.order,
        theirs.edge_order,
    );
    lemma_layers_renamed(first_ends, second_ends, to, back, ours.layers, theirs.layers);
    layout::lemma_listing_distinct(layout::node_keys(first.nodes@), ours.order);
    layout::lemma_listing_distinct(layout::node_keys(second.nodes@), theirs.order);
    assert forall|v: int| 0 <= v < to.len() implies theirs.heights[#[trigger] to[v] as int]
        == ours.heights[v] by {
        assert(second.nodes@[to[v] as int] == first.nodes@[v]);
        assert(ours.heights[v] == layout::height_of_lines(
            crate::wrap::wrapped(
                first.nodes@[v].label@,
                layout::NODE_LABEL_UNITS as nat,
            ).len() as int,
        ));
    }
    if first.nodes@.len() > 0 {
        if first.kind == DiagramKind::Architecture {
            let a = Arrangement {
                order: ours.order,
                groups: ours.layers,
                heights: ours.heights,
            };
            let b = Arrangement {
                order: theirs.order,
                groups: theirs.layers,
                heights: theirs.heights,
            };
            assert(moved(a, b, to, back));
            lemma_columns_moved(a, b, to, back, title);
        } else {
            assert forall|v: int| 0 <= v < to.len() implies layout::degree(
                second_ends,
                #[trigger] to[v] as int,
                second_ends.len(),
            ) == layout::degree(first_ends, v, first_ends.len()) by {
                lemma_same_degree(
                    first,
                    first_ends,
                    second,
                    second_ends,
                    v,
                    to[v] as int,
                );
            }
            lemma_hub_moved(
                ours.order,
                first_ends,
                theirs.order,
                second_ends,
                to,
                to.len(),
            );
            let center = layout::hub(ours.order, first_ends, to.len()) as int;
            let a = Arrangement {
                order: ours.order,
                groups: layout::relation_groups(first_ends, center, to.len()),
                heights: ours.heights,
            };
            let b = Arrangement {
                order: theirs.order,
                groups: layout::relation_groups(second_ends, to[center] as int, to.len()),
                heights: theirs.heights,
            };
            assert forall|v: int| 0 <= v < to.len() implies b.groups[#[trigger] to[v] as int]
                == a.groups[v] by {
                lemma_renamed(first_ends, second_ends, to, back, v, center);
                lemma_renamed(first_ends, second_ends, to, back, center, v);
                assert(back[to[v] as int] == v && back[to[center] as int] == center);
            }
            assert(moved(a, b, to, back));
            lemma_relations_moved(a, b, to, back, center, title);
        }
        assert forall|v: int| 0 <= v < to.len() implies theirs.rects[#[trigger] to[v] as int]
            == ours.rects[v] by {
            assert(ours.rects[v].height == ours.heights[v]);
            assert(theirs.rects[to[v] as int].height == theirs.heights[to[v] as int]);
        }
    }
}

/// The same diagram in two orders is drawn the same.
proof fn lemma_same_drawing(
    first: Diagram,
    first_ends: Seq<(usize, usize)>,
    left: layout::Layout,
    second: Diagram,
    second_ends: Seq<(usize, usize)>,
    right: layout::Layout,
)
    requires
        reordered(first, second),
        first.kind != DiagramKind::Flow,
        diagram::arranged(first, first_ends, left),
        diagram::arranged(second, second_ends, right),
    ensures
        left.width == right.width,
        left.height == right.height,
        svg::document_text(first, left) == svg::document_text(second, right),
{
    let to = matching(first, second);
    let back = matching(second, first);
    let a = choose|plan: layout::Plan| layout::follows(first, first_ends, plan, left);
    let b = choose|plan: layout::Plan| layout::follows(second, second_ends, plan, right);
    lemma_plans_match(
        first,
        first_ends,
        a,
        (left.width as int, left.height as int),
        second,
        second_ends,
        b,
        (right.width as int, right.height as int),
    );
    lemma_matching(first, second);
    lemma_renaming(first, first_ends, second, second_ends);
    assert forall|i: int| 0 <= i < left.nodes@.len() implies svg::same_node(
        first,
        #[trigger] left.nodes@[i],
        second,
        right.nodes@[i],
    ) by {
        let v = a.order[i] as int;
        assert(layout::node_follows(first, a, left.nodes@[i], a.order[i]));
        assert(layout::node_follows(second, b, right.nodes@[i], b.order[i]));
        assert(b.order[i] == to[v]);
        assert(second.nodes@[to[v] as int] == first.nodes@[v]);
        if a.focus is Some {
            let c = a.focus->0 as int;
            assert(back[to[c] as int] == c && back[to[v] as int] == v);
        }
    }
    assert forall|i: int| 0 <= i < left.edges@.len() implies svg::same_edge(
        first,
        #[trigger] left.edges@[i],
        second,
        right.edges@[i],
    ) by {
        let (d, e) = (a.edge_order[i] as int, b.edge_order[i] as int);
        assert(layout::edge_follows(first, first_ends, a, left.edges@[i], a.edge_order[i]));
        assert(layout::edge_follows(second, second_ends, b, right.edges@[i], b.edge_order[i]));
        assert(edges_match(first, first_ends, d, second, second_ends, e));
        let (source, target) = (first_ends[d].0 as int, first_ends[d].1 as int);
        assert(0 <= source < to.len() && 0 <= target < to.len());
        lemma_renamed(first_ends, second_ends, to, back, target, source);
        assert(back[to[source] as int] == source && back[to[target] as int] == target);
        assert(second.nodes@[to[source] as int] == first.nodes@[source]);
        assert(second.nodes@[to[target] as int] == first.nodes@[target]);
        assert(b.rects[to[source] as int] == a.rects[source]);
        assert(b.rects[to[target] as int] == a.rects[target]);
    }
    svg::lemma_same_document(first, left, second, right);
}

/// Architecture and relationship diagrams are canonical: in whatever order the nodes
/// and edges of a diagram are given, it has the same document, byte for byte.
pub proof fn law_rendering_ignores_input_order(
    first: Diagram,
    second: Diagram,
    ours: Seq<u8>,
    theirs: Seq<u8>,
)
    requires
        reordered(first, second),
        first.kind != DiagramKind::Flow,
        diagram::renders_as(first, ours),
        diagram::renders_as(second, theirs),
    ensures
        ours == theirs,
{
    let (first_ends, left) = choose|endpoints: Seq<(usize, usize)>, drawn: layout::Layout|
        {
            &&& #[trigger] diagram::arranged(first, endpoints, drawn)
            &&& drawn.width <= diagram::MAX_DIMENSION
            &&& drawn.height <= diagram::MAX_DIMENSION
            &&& ours.len() <= diagram::MAX_SVG_BYTES
            &&& ours == vstd::utf8::encode_utf8(svg::document_text(first, drawn))
        };
    let (second_ends, right) = choose|endpoints: Seq<(usize, usize)>, drawn: layout::Layout|
        {
            &&& #[trigger] diagram::arranged(second, endpoints, drawn)
            &&& drawn.width <= diagram::MAX_DIMENSION
            &&& drawn.height <= diagram::MAX_DIMENSION
            &&& theirs.len() <= diagram::MAX_SVG_BYTES
            &&& theirs == vstd::utf8::encode_utf8(svg::document_text(second, drawn))
        };
    lemma_same_drawing(first, first_ends, left, second, second_ends, right);
}

proof fn lemma_ids_stay_distinct(first: Seq<DiagramNode>, second: Seq<DiagramNode>)
    requires
        first.to_multiset() == second.to_multiset(),
        diagram::distinct_ids(first, first.len() as int),
    ensures
        diagram::distinct_ids(second, second.len() as int),
{
    assert forall|i: int, j: int| 0 <= i < first.len() && 0 <= j < first.len() && i
        != j implies first[i] != first[j] by {
        if first[i] == first[j] {
            lemma_same_id(first, i, j);
        }
    }
    first.lemma_multiset_has_no_duplicates();
    second.lemma_multiset_has_no_duplicates_conv();
    lemma_same_members(first, second);
    assert forall|i: int, j: int| 0 <= i < j < second.len() implies (#[trigger] second[i]).id@ != (
    #[trigger] second[j]).id@ by {
        assert(second.contains(second[i]) && second.contains(second[j]));
        assert(first.contains(second[i]) && first.contains(second[j]));
        let u = choose|u: int| 0 <= u < first.len() && first[u] == second[i];
        let v = choose|v: int| 0 <= v < first.len() && first[v] == second[j];
        if second[i].id@ == second[j].id@ {
            lemma_same_id(first, u, v);
        }
    }
}

proof fn lemma_limits_kept(first: Diagram, second: Diagram, error: DiagramRenderError)
    requires
        reordered(first, second),
        diagram::within_limits(first),
    ensures
        !diagram::over_limit(second, error),
{
    lemma_same_members(first.nodes@, second.nodes@);
    lemma_same_members(first.edges@, second.edges@);
    match error {
        DiagramRenderError::NodeLabelTooLong { node_index, .. } => {
            if node_index < second.nodes@.len() {
                let node = second.nodes@[node_index as int];
                assert(second.nodes@.contains(node));
                assert(first.nodes@.contains(node));
                let k = choose|k: int| 0 <= k < first.nodes@.len() && first.nodes@[k] == node;
                assert(diagram::label_short(first.nodes@, k));
            }
        },
        DiagramRenderError::EdgeLabelTooLong { edge_index, .. } => {
            if edge_index < second.edges@.len() {
                let edge = second.edges@[edge_index as int];
                assert(second.edges@.contains(edge));
                assert(first.edges@.contains(edge));
                let k = choose|k: int| 0 <= k < first.edges@.len() && first.edges@[k] == edge;
                assert(diagram::edge_label_short(first.edges@, k));
            }
        },
        _ => {},
    }
}

proof fn lemma_ends_kept(
    first: Diagram,
    first_ends: Seq<(usize, usize)>,
    second: Diagram,
    error: DiagramRenderError,
)
    requires
        reordered(first, second),
        diagram::resolves(first, first_ends),
    ensures
        !diagram::unresolvable(second, error),
{
    lemma_same_members(first.nodes@, second.nodes@);
    lemma_same_members(first.edges@, second.edges@);
    lemma_ids_stay_distinct(first.nodes@, second.nodes@);
    assert forall|k: int| 0 <= k < second.edges@.len() implies diagram::has_node(
        second.nodes@,
        (#[trigger] second.edges@[k]).source@,
    ) && diagram::has_node(second.nodes@, second.edges@[k].target@) by {
        let edge = second.edges@[k];
        assert(second.edges@.contains(edge));
        assert(first.edges@.contains(edge));
        let e = choose|e: int| 0 <= e < first.edges@.len() && first.edges@[e] == edge;
        let (source, target) = (first_ends[e].0 as int, first_ends[e].1 as int);
        assert(diagram::is_node(first.nodes@, edge.source@, first_ends[e].0));
        assert(first.nodes@.contains(first.nodes@[source]));
        assert(first.nodes@.contains(first.nodes@[target]));
        assert(second.nodes@.contains(first.nodes@[source]));
        assert(second.nodes@.contains(first.nodes@[target]));
        let u = choose|u: int|
            0 <= u < second.nodes@.len() && second.nodes@[u] == first.nodes@[source];
        let v = choose|v: int|
            0 <= v < second.nodes@.len() && second.nodes@[v] == first.nodes@[target];
        assert(second.nodes@[u].id@ == edge.source@);
        assert(second.nodes@[v].id@ == edge.target@);
    }
}

/// A diagram that is rendered in one order is refused in no other.
pub proof fn law_reordered_diagram_is_not_refused(
    first: Diagram,
    second: Diagram,
    bytes: Seq<u8>,
    error: DiagramRenderError,
)
    requires
        reordered(first, second),
        first.kind != DiagramKind::Flow,
        diagram::renders_as(first, bytes),
    ensures
        !diagram::refused(second, error),
{
    let (ends, drawn) = choose|endpoints: Seq<(usize, usize)>, drawn: layout::Layout|
        {
            &&& #[trigger] diagram::arranged(first, endpoints, drawn)
            &&& drawn.width <= diagram::MAX_DIMENSION
            &&& drawn.height <= diagram::MAX_DIMENSION
            &&& bytes.len() <= diagram::MAX_SVG_BYTES
            &&& bytes == vstd::utf8::encode_utf8(svg::document_text(first, drawn))
        };
    lemma_limits_kept(first, second, error);
    lemma_ends_kept(first, ends, second, error);
    if diagram::too_large(second, error) {
        let (other_ends, other) = choose|endpoints: Seq<(usize, usize)>, drawn: layout::Layout|
            {
                &&& #[trigger] diagram::arranged(second, endpoints, drawn)
                &&& match error {
                    DiagramRenderError::WidthLimitExceeded { actual, maximum } => {
                        &&& drawn.width > diagram::MAX_DIMENSION
                        &&& actual == drawn.width
                        &&& maximum == diagram::MAX_DIMENSION
                    },
                    DiagramRenderError::HeightLimitExceeded { actual, maximum } => {
                        &&& drawn.width <= diagram::MAX_DIMENSION
                        &&& drawn.height > diagram::MAX_DIMENSION
                        &&& actual == drawn.height
                        &&& maximum == diagram::MAX_DIMENSION
                    },
                    DiagramRenderError::SvgSizeLimitExceeded { actual, maximum } => {
                        &&& drawn.width <= diagram::MAX_DIMENSION
                        &&& drawn.height <= diagram::MAX_DIMENSION
                        &&& svg::counted_bytes(svg::document_text(second, drawn))
                            > diagram::MAX_SVG_BYTES
                        &&& actual == svg::counted_bytes(svg::document_text(second, drawn))
                        &&& maximum == diagram::MAX_SVG_BYTES
                    },
                    _ => false,
                }
            };
        lemma_same_drawing(first, ends, drawn, second, other_ends, other);
    }
}

} // verus!
