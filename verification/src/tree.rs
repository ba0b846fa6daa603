//! Where the nodes of a syntax tree stand: above, below and beside each other.
use crate::syntax;
use crate::syntax::NodeShown;
use vstd::prelude::*;

verus! {

/// Whether nodes are those of one tree, each node before the nodes below it: subtrees
/// are not empty and lie inside each other or apart, and the first node is the root.
pub open spec fn is_tree(nodes: Seq<NodeShown>) -> bool {
    &&& nodes.len() > 0
    &&& nodes[0].descendants == nodes.len()
    &&& forall|u: int| 0 <= u < nodes.len() ==> (#[trigger] nodes[u]).descendants >= 1
    &&& forall|u: int, v: int| #[trigger]
        below(nodes, u, v) ==> v + nodes[v].descendants <= u + nodes[u].descendants
}

/// Whether the node at `v` stands below the node at `u`: the one at `u` is among its
/// ancestors.
pub open spec fn below(nodes: Seq<NodeShown>, u: int, v: int) -> bool {
    0 <= u < v < u + nodes[u].descendants
}

/// Whether the node at `v` is a child of the node at `u`.
pub open spec fn child_of(nodes: Seq<NodeShown>, u: int, v: int) -> bool {
    below(nodes, u, v) && forall|w: int| #[trigger] below(nodes, u, w) ==> !below(nodes, w, v)
}

/// Whether the node at `c` is the first child of the node at `u` that passes a test.
pub open spec fn first_child(
    nodes: Seq<NodeShown>,
    u: int,
    c: int,
    test: spec_fn(NodeShown) -> bool,
) -> bool {
    &&& child_of(nodes, u, c)
    &&& test(nodes[c])
    &&& forall|d: int| #[trigger] child_of(nodes, u, d) && d < c ==> !test(nodes[d])
}

/// Whether no child of the node at `u` passes a test.
pub open spec fn no_child(nodes: Seq<NodeShown>, u: int, test: spec_fn(NodeShown) -> bool) -> bool {
    forall|d: int| #[trigger] child_of(nodes, u, d) ==> !test(nodes[d])
}

pub open spec fn with_field(field: Seq<char>) -> spec_fn(NodeShown) -> bool {
    |node: NodeShown| node.field == Some(field)
}

pub open spec fn is_named() -> spec_fn(NodeShown) -> bool {
    |node: NodeShown| node.named
}

/// The end of a subtree.
pub open spec fn end_of(nodes: Seq<NodeShown>, u: int) -> int {
    u + nodes[u].descendants
}

/// Subtrees end inside the tree.
pub proof fn lemma_end_inside(nodes: Seq<NodeShown>, u: int)
    requires
        is_tree(nodes),
        0 <= u < nodes.len(),
    ensures
        u < end_of(nodes, u) <= nodes.len(),
{
    if u > 0 {
        assert(below(nodes, 0, u));
    }
}

/// What stands above a child stands above its parent, or is the parent.
pub proof fn lemma_above_child(nodes: Seq<NodeShown>, u: int, c: int)
    requires
        is_tree(nodes),
        0 <= u < nodes.len(),
        child_of(nodes, u, c),
    ensures
        forall|w: int| #[trigger] below(nodes, w, c) <==> w == u || below(nodes, w, u),
{
    assert forall|w: int| #[trigger] below(nodes, w, c) implies w == u || below(nodes, w, u) by {
        if w > u {
            assert(below(nodes, u, w));
        }
    }
    assert forall|w: int| below(nodes, w, u) implies #[trigger] below(nodes, w, c) by {
        assert(u + nodes[u].descendants <= w + nodes[w].descendants);
    }
}

/// The first node below a node is its child.
pub proof fn lemma_eldest(nodes: Seq<NodeShown>, u: int)
    requires
        is_tree(nodes),
        0 <= u < nodes.len(),
        u + 1 < end_of(nodes, u),
    ensures
        child_of(nodes, u, u + 1),
{
}

/// The node behind the subtree of a child is the next child, as far as there is one.
pub proof fn lemma_next_child(nodes: Seq<NodeShown>, u: int, c: int)
    requires
        is_tree(nodes),
        0 <= u < nodes.len(),
        child_of(nodes, u, c),
    ensures
        c < end_of(nodes, c) <= end_of(nodes, u),
        syntax::after(nodes, c, end_of(nodes, u)) == end_of(nodes, c),
        end_of(nodes, c) < end_of(nodes, u) ==> child_of(nodes, u, end_of(nodes, c)),
        forall|d: int| #[trigger] child_of(nodes, u, d) ==> d <= c || end_of(nodes, c) <= d,
{
    lemma_end_inside(nodes, u);
    assert(nodes[c].descendants >= 1);
    let next = end_of(nodes, c);
    if next < end_of(nodes, u) {
        assert forall|w: int| #[trigger] below(nodes, u, w) implies !below(nodes, w, next) by {
            if below(nodes, w, next) {
                if w < c {
                    assert(below(nodes, w, c));
                } else if w > c {
                    assert(below(nodes, c, w));
                }
            }
        }
    }
    assert forall|d: int| #[trigger] child_of(nodes, u, d) implies d <= c || next <= d by {
        if c < d < next {
            assert(below(nodes, c, d));
            assert(below(nodes, u, c));
        }
    }
}

/// The siblings from `at` on are the children of the node at `u` from there on.
pub open spec fn at_child(nodes: Seq<NodeShown>, u: int, at: int) -> bool {
    at == end_of(nodes, u) || child_of(nodes, u, at)
}

pub proof fn lemma_field_child(nodes: Seq<NodeShown>, u: int, at: int, field: Seq<char>)
    requires
        is_tree(nodes),
        0 <= u < nodes.len(),
        at_child(nodes, u, at),
        forall|d: int| #[trigger] child_of(nodes, u, d) && d < at ==> !with_field(field)(nodes[d]),
    ensures
        match syntax::sibling_with_field(nodes, at, end_of(nodes, u), field) {
            Some(c) => first_child(nodes, u, c, with_field(field)),
            None => no_child(nodes, u, with_field(field)),
        },
    decreases end_of(nodes, u) - at,
{
    let stop = end_of(nodes, u);
    if at < stop {
        lemma_next_child(nodes, u, at);
        if nodes[at].field != Some(field) {
            let next = end_of(nodes, at);
            assert forall|d: int| #[trigger] child_of(nodes, u, d) && d < next implies !with_field(
                field,
            )(nodes[d]) by {}
            lemma_field_child(nodes, u, next, field);
        }
    }
}

pub proof fn lemma_named_child(nodes: Seq<NodeShown>, u: int, at: int)
    requires
        is_tree(nodes),
        0 <= u < nodes.len(),
        at_child(nodes, u, at),
        forall|d: int| #[trigger] child_of(nodes, u, d) && d < at ==> !is_named()(nodes[d]),
    ensures
        match syntax::named_sibling(nodes, at, end_of(nodes, u)) {
            Some(c) => first_child(nodes, u, c, is_named()),
            None => no_child(nodes, u, is_named()),
        },
    decreases end_of(nodes, u) - at,
{
    let stop = end_of(nodes, u);
    if at < stop {
        lemma_next_child(nodes, u, at);
        if !nodes[at].named {
            let next = end_of(nodes, at);
            assert forall|d: int| #[trigger] child_of(nodes, u, d) && d < next implies !is_named()(
                nodes[d],
            ) by {}
            lemma_named_child(nodes, u, next);
        }
    }
}

/// The first child with a role.
pub proof fn lemma_child_with_field(nodes: Seq<NodeShown>, u: int, field: Seq<char>)
    requires
        is_tree(nodes),
        0 <= u < nodes.len(),
    ensures
        match syntax::child_with_field(nodes, u, end_of(nodes, u), field) {
            Some(c) => first_child(nodes, u, c, with_field(field)),
            None => no_child(nodes, u, with_field(field)),
        },
{
    lemma_end_inside(nodes, u);
    if u + 1 < end_of(nodes, u) {
        lemma_eldest(nodes, u);
    }
    lemma_field_child(nodes, u, u + 1, field);
}

/// The first named child.
pub proof fn lemma_first_named_child(nodes: Seq<NodeShown>, u: int)
    requires
        is_tree(nodes),
        0 <= u < nodes.len(),
    ensures
        match syntax::named_sibling(nodes, u + 1, end_of(nodes, u)) {
            Some(c) => first_child(nodes, u, c, is_named()),
            None => no_child(nodes, u, is_named()),
        },
{
    lemma_end_inside(nodes, u);
    if u + 1 < end_of(nodes, u) {
        lemma_eldest(nodes, u);
    }
    lemma_named_child(nodes, u, u + 1);
}

/// Whether places are those before `to` that pass a test, in ascending order.
pub open spec fn lists(places: Seq<int>, test: spec_fn(int) -> bool, to: int) -> bool {
    &&& forall|i: int, j: int| 0 <= i < j < places.len() ==> #[trigger] places[i] < #[trigger] places[j]
    &&& forall|v: int| #[trigger] places.contains(v) <==> 0 <= v < to && test(v)
}

/// Places with one more, if it passes the test.
pub open spec fn with_place(places: Seq<int>, test: spec_fn(int) -> bool, at: int) -> Seq<int> {
    if test(at) {
        places.push(at)
    } else {
        places
    }
}

pub proof fn lemma_lists_step(places: Seq<int>, test: spec_fn(int) -> bool, at: int)
    requires
        lists(places, test, at),
        0 <= at,
    ensures
        lists(with_place(places, test, at), test, at + 1),
{
    let more = with_place(places, test, at);
    if test(at) {
        assert forall|v: int| #[trigger] more.contains(v) <==> 0 <= v < at + 1 && test(v) by {
            if more.contains(v) {
                let i = choose|i: int| 0 <= i < more.len() && more[i] == v;
                if i < places.len() {
                    assert(places[i] == v);
                    assert(places.contains(v));
                }
            }
            if 0 <= v < at && test(v) {
                assert(places.contains(v));
                let i = choose|i: int| 0 <= i < places.len() && places[i] == v;
                assert(more[i] == v);
            }
            if v == at {
                assert(more[places.len() as int] == v);
            }
        }
        assert forall|i: int, j: int| 0 <= i < j < more.len() implies #[trigger] more[i]
            < #[trigger] more[j] by {
            if j == places.len() {
                assert(places[i] == more[i]);
                assert(places.contains(places[i]));
            }
        }
    }
}

pub proof fn lemma_lists_skip(places: Seq<int>, test: spec_fn(int) -> bool, at: int, next: int)
    requires
        lists(places, test, at),
        0 <= at <= next,
        forall|v: int| at <= v < next ==> !#[trigger] test(v),
    ensures
        lists(places, test, next),
{
}

} // verus!
