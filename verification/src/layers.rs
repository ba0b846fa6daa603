//! Layers of a directed graph: the longest chains between its cycles.
use vstd::prelude::*;

verus! {

/// The edges of a graph as pairs of source and target.
pub type Endpoints = Seq<(usize, usize)>;

/// Whether an edge leads from `u` to `v`.
pub open spec fn edge(endpoints: Endpoints, u: int, v: int) -> bool {
    exists|e: int|
        0 <= e < endpoints.len() && (#[trigger] endpoints[e]).0 == u && endpoints[e].1 == v
}

/// Whether `count` edges lead from `u` to `v`.
pub open spec fn steps(endpoints: Endpoints, count: nat, u: int, v: int) -> bool
    decreases count,
{
    if count == 0 {
        u == v
    } else {
        exists|w: int|
            steps(endpoints, (count - 1) as nat, u, w) && #[trigger] edge(endpoints, w, v)
    }
}

/// Whether some chain of edges, possibly empty, leads from `u` to `v`.
pub open spec fn reaches(endpoints: Endpoints, u: int, v: int) -> bool {
    exists|count: nat| steps(endpoints, count, u, v)
}

/// Whether two nodes are the same or lie on a common cycle.
pub open spec fn mutual(endpoints: Endpoints, u: int, v: int) -> bool {
    reaches(endpoints, u, v) && reaches(endpoints, v, u)
}

/// Whether an edge comes from outside into the cycles through `v`.
pub open spec fn enters(endpoints: Endpoints, e: int, v: int) -> bool {
    mutual(endpoints, endpoints[e].1 as int, v) && !reaches(
        endpoints,
        endpoints[e].1 as int,
        endpoints[e].0 as int,
    )
}

/// Every edge joins nodes below `node_count`.
pub open spec fn in_range(endpoints: Endpoints, node_count: int) -> bool {
    forall|e: int|
        0 <= e < endpoints.len() ==> (#[trigger] endpoints[e]).0 < node_count && endpoints[e].1
            < node_count
}

/// The layer of a node is one more than the greatest layer from which an edge
/// enters its cycles, and 0 where no edge enters them.
pub open spec fn layer_fits(endpoints: Endpoints, layers: Seq<usize>, v: int) -> bool {
    &&& forall|e: int|
        0 <= e < endpoints.len() && #[trigger] enters(endpoints, e, v) ==> layers[v]
            >= layers[endpoints[e].0 as int] + 1
    &&& layers[v] == 0 || exists|e: int|
        0 <= e < endpoints.len() && #[trigger] enters(endpoints, e, v) && layers[v]
            == layers[endpoints[e].0 as int] + 1
}

/// The layers of all nodes.
pub open spec fn layered(endpoints: Endpoints, node_count: int, layers: Seq<usize>) -> bool {
    &&& layers.len() == node_count
    &&& forall|v: int| 0 <= v < node_count ==> #[trigger] layer_fits(endpoints, layers, v)
}

pub proof fn lemma_reaches_itself(endpoints: Endpoints, u: int)
    ensures
        reaches(endpoints, u, u),
{
    assert(steps(endpoints, 0, u, u));
}

pub proof fn lemma_edge_reaches(endpoints: Endpoints, u: int, v: int)
    requires
        edge(endpoints, u, v),
    ensures
        reaches(endpoints, u, v),
{
    assert(steps(endpoints, 0, u, u));
    assert(steps(endpoints, 1, u, v));
}

proof fn lemma_steps_add(endpoints: Endpoints, first: nat, second: nat, u: int, v: int, w: int)
    requires
        steps(endpoints, first, u, v),
        steps(endpoints, second, v, w),
    ensures
        steps(endpoints, first + second, u, w),
    decreases second,
{
    if second > 0 {
        let x = choose|x: int|
            steps(endpoints, (second - 1) as nat, v, x) && #[trigger] edge(endpoints, x, w);
        lemma_steps_add(endpoints, first, (second - 1) as nat, u, v, x);
        assert((first + second - 1) as nat == first + (second - 1) as nat);
    }
}

pub proof fn lemma_reaches_transitive(endpoints: Endpoints, u: int, v: int, w: int)
    requires
        reaches(endpoints, u, v),
        reaches(endpoints, v, w),
    ensures
        reaches(endpoints, u, w),
{
    let first = choose|count: nat| steps(endpoints, count, u, v);
    let second = choose|count: nat| steps(endpoints, count, v, w);
    lemma_steps_add(endpoints, first, second, u, v, w);
}

/// One cell of a square table.
pub open spec fn cell(table: Seq<Vec<bool>>, i: int, j: int) -> bool {
    table[i]@[j]
}

spec fn square(table: Seq<Vec<bool>>, size: int) -> bool {
    table.len() == size && forall|i: int| 0 <= i < size ==> (#[trigger] table[i])@.len() == size
}

/// A table between the edges and reachability that is closed under chains
/// through the first `through` nodes.
spec fn closing(endpoints: Endpoints, table: Seq<Vec<bool>>, size: int, through: int) -> bool {
    &&& square(table, size)
    &&& forall|i: int| 0 <= i < size ==> #[trigger] cell(table, i, i)
    &&& forall|i: int, j: int|
        0 <= i < size && 0 <= j < size && edge(endpoints, i, j) ==> #[trigger] cell(table, i, j)
    &&& forall|i: int, j: int|
        0 <= i < size && 0 <= j < size && #[trigger] cell(table, i, j) ==> reaches(endpoints, i, j)
    &&& forall|i: int, m: int, j: int|
        0 <= i < size && 0 <= m < through && 0 <= j < size && #[trigger] cell(table, i, m)
            && #[trigger] cell(table, m, j) ==> cell(table, i, j)
}

proof fn lemma_closed_is_reachability(
    endpoints: Endpoints,
    table: Seq<Vec<bool>>,
    size: int,
    count: nat,
    u: int,
    v: int,
)
    requires
        closing(endpoints, table, size, size),
        in_range(endpoints, size),
        0 <= u < size,
        0 <= v < size,
        steps(endpoints, count, u, v),
    ensures
        cell(table, u, v),
    decreases count,
{
    if count > 0 {
        let w = choose|w: int|
            steps(endpoints, (count - 1) as nat, u, w) && #[trigger] edge(endpoints, w, v);
        lemma_closed_is_reachability(endpoints, table, size, (count - 1) as nat, u, w);
        assert(cell(table, w, v));
        assert(cell(table, u, w));
    } else {
        assert(cell(table, u, u));
    }
}

/// The row of direct edges from a node.
fn edge_row(endpoints: &[(usize, usize)], node_count: usize, node: usize) -> (row: Vec<bool>)
    requires
        in_range(endpoints@, node_count as int),
    ensures
        row@.len() == node_count,
        forall|j: int|
            0 <= j < node_count ==> #[trigger] row@[j] == (j == node || edge(
                endpoints@,
                node as int,
                j,
            )),
{
    let mut row: Vec<bool> = Vec::new();
    let mut column: usize = 0;
    while column < node_count
        invariant
            column <= node_count,
            row@.len() == column,
            forall|j: int|
                0 <= j < column ==> #[trigger] row@[j] == (j == node || edge(
                    endpoints@,
                    node as int,
                    j,
                )),
        decreases node_count - column,
    {
        let mut joined = column == node;
        let mut index: usize = 0;
        while index < endpoints.len()
            invariant
                index <= endpoints@.len(),
                joined ==> column == node || edge(endpoints@, node as int, column as int),
                column == node ==> joined,
                forall|e: int|
                    0 <= e < index && (#[trigger] endpoints@[e]).0 == node && endpoints@[e].1
                        == column ==> joined,
            decreases endpoints@.len() - index,
        {
            let (source, target) = endpoints[index];
            if source == node && target == column {
                assert(endpoints@[index as int].0 == node);
                joined = true;
            }
            index = index + 1;
        }
        row.push(joined);
        column = column + 1;
    }
    row
}

/// A row joined with the row of a node that it leads to.
fn joined_row(row: &Vec<bool>, other_row: &Vec<bool>) -> (joined: Vec<bool>)
    requires
        row@.len() == other_row@.len(),
    ensures
        joined@.len() == row@.len(),
        forall|j: int| 0 <= j < row@.len() ==> #[trigger] joined@[j] == (row@[j] || other_row@[j]),
{
    let mut joined: Vec<bool> = Vec::new();
    let mut column: usize = 0;
    while column < row.len()
        invariant
            column <= row@.len(),
            row@.len() == other_row@.len(),
            joined@.len() == column,
            forall|j: int| 0 <= j < column ==> #[trigger] joined@[j] == (row@[j] || other_row@[j]),
        decreases row@.len() - column,
    {
        joined.push(row[column] || other_row[column]);
        column = column + 1;
    }
    joined
}

fn copied_row(row: &Vec<bool>) -> (copy: Vec<bool>)
    ensures
        copy@ == row@,
{
    let mut copy: Vec<bool> = Vec::new();
    let mut column: usize = 0;
    while column < row.len()
        invariant
            column <= row@.len(),
            copy@ == row@.take(column as int),
        decreases row@.len() - column,
    {
        assert(row@.take(column as int + 1) =~= row@.take(column as int).push(row@[column as int]));
        copy.push(row[column]);
        column = column + 1;
    }
    assert(row@.take(row@.len() as int) =~= row@);
    copy
}

/// Adds the chains through one more node.
fn with_chains_through(
    table: &Vec<Vec<bool>>,
    endpoints: &[(usize, usize)],
    through: usize,
) -> (next: Vec<Vec<bool>>)
    requires
        through < table@.len(),
        closing(endpoints@, table@, table@.len() as int, through as int),
    ensures
        next@.len() == table@.len(),
        closing(endpoints@, next@, table@.len() as int, through + 1),
{
    let ghost size = table@.len() as int;
    let ghost old_table = table@;
    let mut next: Vec<Vec<bool>> = Vec::new();
    let mut node: usize = 0;
    while node < table.len()
        invariant
            node <= table@.len() == size,
            through < table@.len(),
            table@ == old_table,
            square(old_table, size),
            next@.len() == node,
            forall|i: int| 0 <= i < node ==> (#[trigger] next@[i])@.len() == size,
            forall|i: int, j: int|
                0 <= i < node && 0 <= j < size ==> #[trigger] cell(next@, i, j) == (cell(
                    old_table,
                    i,
                    j,
                ) || (cell(old_table, i, through as int) && cell(old_table, through as int, j))),
        decreases table@.len() - node,
    {
        assert(old_table[node as int]@.len() == size);
        assert(old_table[through as int]@.len() == size);
        let row = if table[node][through] {
            joined_row(&table[node], &table[through])
        } else {
            copied_row(&table[node])
        };
        assert(cell(old_table, node as int, through as int) == table@[node as int]@[through as int]);
        let ghost earlier = next@;
        next.push(row);
        assert forall|i: int, j: int| 0 <= i <= node && 0 <= j < size implies #[trigger] cell(
            next@,
            i,
            j,
        ) == (cell(old_table, i, j) || (cell(old_table, i, through as int) && cell(
            old_table,
            through as int,
            j,
        ))) by {
            if i < node {
                assert(next@[i] == earlier[i]);
                assert(cell(next@, i, j) == cell(earlier, i, j));
            } else {
                assert(row@[j] == cell(next@, i, j));
            }
        }
        node = node + 1;
    }
    proof {
        let t = old_table;
        let n = next@;
        let k = through as int;
        assert forall|i: int, j: int|
            0 <= i < size && 0 <= j < size && #[trigger] cell(n, i, j) implies reaches(
            endpoints@,
            i,
            j,
        ) by {
            if !cell(t, i, j) {
                lemma_reaches_transitive(endpoints@, i, k, j);
            }
        }
        assert forall|i: int, j: int|
            0 <= i < size && 0 <= j < size && edge(endpoints@, i, j) implies #[trigger] cell(
            n,
            i,
            j,
        ) by {
            assert(cell(t, i, j));
        }
        assert forall|i: int| 0 <= i < size implies #[trigger] cell(n, i, i) by {
            assert(cell(t, i, i));
        }
        assert forall|i: int, m: int, j: int|
            0 <= i < size && 0 <= m < k + 1 && 0 <= j < size && #[trigger] cell(n, i, m)
                && #[trigger] cell(n, m, j) implies cell(n, i, j) by {
            assert(cell(n, i, j) == (cell(t, i, j) || (cell(t, i, k) && cell(t, k, j))));
            assert(cell(t, k, k));
            if m < k {
                if cell(t, i, m) && cell(t, m, j) {
                    assert(cell(t, i, j));
                } else if cell(t, i, m) {
                    assert(cell(t, m, k) && cell(t, k, j));
                    assert(cell(t, i, k));
                } else if cell(t, m, j) {
                    assert(cell(t, i, k) && cell(t, k, m));
                    assert(cell(t, k, j));
                }
            }
        }
    }
    next
}

/// The table of which node reaches which.
pub fn reachability(node_count: usize, endpoints: &[(usize, usize)]) -> (table: Vec<Vec<bool>>)
    requires
        in_range(endpoints@, node_count as int),
    ensures
        table@.len() == node_count,
        forall|i: int| 0 <= i < node_count ==> (#[trigger] table@[i])@.len() == node_count,
        forall|i: int, j: int|
            0 <= i < node_count && 0 <= j < node_count ==> #[trigger] cell(table@, i, j) == reaches(
                endpoints@,
                i,
                j,
            ),
{
    let ghost size = node_count as int;
    let mut table: Vec<Vec<bool>> = Vec::new();
    let mut node: usize = 0;
    while node < node_count
        invariant
            node <= node_count == size,
            in_range(endpoints@, size),
            table@.len() == node,
            forall|i: int| 0 <= i < node ==> (#[trigger] table@[i])@.len() == size,
            forall|i: int, j: int|
                0 <= i < node && 0 <= j < size ==> #[trigger] cell(table@, i, j) == (i == j || edge(
                    endpoints@,
                    i,
                    j,
                )),
        decreases node_count - node,
    {
        let row = edge_row(endpoints, node_count, node);
        let ghost earlier = table@;
        table.push(row);
        assert forall|i: int, j: int| 0 <= i <= node && 0 <= j < size implies #[trigger] cell(
            table@,
            i,
            j,
        ) == (i == j || edge(endpoints@, i, j)) by {
            if i < node {
                assert(cell(table@, i, j) == cell(earlier, i, j));
            } else {
                assert(row@[j] == cell(table@, i, j));
            }
        }
        node = node + 1;
    }
    assert forall|i: int, j: int|
        0 <= i < size && 0 <= j < size && #[trigger] cell(table@, i, j) implies reaches(
        endpoints@,
        i,
        j,
    ) by {
        if i == j {
            lemma_reaches_itself(endpoints@, i);
        } else {
            lemma_edge_reaches(endpoints@, i, j);
        }
    }
    let mut through: usize = 0;
    while through < node_count
        invariant
            through <= node_count == size,
            table@.len() == size,
            closing(endpoints@, table@, size, through as int),
        decreases node_count - through,
    {
        table = with_chains_through(&table, endpoints, through);
        through = through + 1;
    }
    assert forall|i: int, j: int| 0 <= i < size && 0 <= j < size implies #[trigger] cell(
        table@,
        i,
        j,
    ) == reaches(endpoints@, i, j) by {
        if reaches(endpoints@, i, j) {
            let count = choose|count: nat| steps(endpoints@, count, i, j);
            lemma_closed_is_reachability(endpoints@, table@, size, count, i, j);
        }
    }
    table
}

/// How many of the first `count` nodes reach `v`.
spec fn reaching(endpoints: Endpoints, count: nat, v: int) -> nat
    decreases count,
{
    if count == 0 {
        0
    } else {
        reaching(endpoints, (count - 1) as nat, v) + if reaches(endpoints, count - 1, v) {
            1nat
        } else {
            0nat
        }
    }
}

proof fn lemma_reaching_monotonic(endpoints: Endpoints, count: nat, u: int, v: int)
    requires
        reaches(endpoints, u, v),
    ensures
        reaching(endpoints, count, u) <= reaching(endpoints, count, v) <= count,
    decreases count,
{
    if count > 0 {
        lemma_reaching_monotonic(endpoints, (count - 1) as nat, u, v);
        if reaches(endpoints, count - 1, u) {
            lemma_reaches_transitive(endpoints, count - 1, u, v);
        }
    }
}

/// Fewer nodes reach a node than reach those behind it that do not lead back.
proof fn lemma_reaching_grows(endpoints: Endpoints, count: nat, u: int, v: int)
    requires
        reaches(endpoints, u, v),
        !reaches(endpoints, v, u),
        0 <= v < count,
    ensures
        reaching(endpoints, count, u) < reaching(endpoints, count, v),
    decreases count,
{
    lemma_reaching_monotonic(endpoints, (count - 1) as nat, u, v);
    if v == count - 1 {
        lemma_reaches_itself(endpoints, v);
    } else {
        lemma_reaching_grows(endpoints, (count - 1) as nat, u, v);
        if reaches(endpoints, count - 1, u) {
            lemma_reaches_transitive(endpoints, count - 1, u, v);
        }
    }
}

proof fn lemma_enters_grows(endpoints: Endpoints, node_count: nat, e: int, v: int)
    requires
        in_range(endpoints, node_count as int),
        0 <= e < endpoints.len(),
        0 <= v < node_count,
        enters(endpoints, e, v),
    ensures
        reaching(endpoints, node_count, endpoints[e].0 as int) < reaching(endpoints, node_count, v),
{
    let source = endpoints[e].0 as int;
    let target = endpoints[e].1 as int;
    assert(edge(endpoints, source, target));
    lemma_edge_reaches(endpoints, source, target);
    lemma_reaching_grows(endpoints, node_count, source, target);
    lemma_reaching_monotonic(endpoints, node_count, target, v);
}

/// How many nodes reach a node.
fn count_reaching(
    table: &Vec<Vec<bool>>,
    endpoints: &[(usize, usize)],
    node: usize,
) -> (count: usize)
    requires
        node < table@.len(),
        forall|i: int| 0 <= i < table@.len() ==> (#[trigger] table@[i])@.len() == table@.len(),
        forall|i: int, j: int|
            0 <= i < table@.len() && 0 <= j < table@.len() ==> #[trigger] cell(table@, i, j)
                == reaches(endpoints@, i, j),
    ensures
        count == reaching(endpoints@, table@.len(), node as int),
        1 <= count <= table@.len(),
{
    let mut count: usize = 0;
    let mut other: usize = 0;
    while other < table.len()
        invariant
            node < table@.len(),
            other <= table@.len(),
            forall|i: int| 0 <= i < table@.len() ==> (#[trigger] table@[i])@.len() == table@.len(),
            forall|i: int, j: int|
                0 <= i < table@.len() && 0 <= j < table@.len() ==> #[trigger] cell(table@, i, j)
                    == reaches(endpoints@, i, j),
            count == reaching(endpoints@, other as nat, node as int),
            count <= other,
            other > node ==> count >= 1,
        decreases table@.len() - other,
    {
        assert(table@[other as int]@.len() == table@.len());
        assert(cell(table@, other as int, node as int) == reaches(
            endpoints@,
            other as int,
            node as int,
        ));
        proof {
            lemma_reaches_itself(endpoints@, node as int);
        }
        if table[other][node] {
            count = count + 1;
        }
        other = other + 1;
    }
    count
}

/// One more than the greatest layer from which an edge enters the cycles through
/// a node, or 0.
fn layer_of(
    table: &Vec<Vec<bool>>,
    endpoints: &[(usize, usize)],
    layers: &Vec<usize>,
    node: usize,
) -> (layer: usize)
    requires
        node < table@.len(),
        layers@.len() == table@.len(),
        in_range(endpoints@, table@.len() as int),
        forall|i: int| 0 <= i < table@.len() ==> (#[trigger] table@[i])@.len() == table@.len(),
        forall|i: int, j: int|
            0 <= i < table@.len() && 0 <= j < table@.len() ==> #[trigger] cell(table@, i, j)
                == reaches(endpoints@, i, j),
        forall|i: int| 0 <= i < layers@.len() ==> #[trigger] layers@[i] < table@.len(),
    ensures
        layer_fits(endpoints@, layers@.update(node as int, layer), node as int),
        layer <= table@.len(),
        layer == 0 || exists|e: int|
            0 <= e < endpoints@.len() && #[trigger] enters(endpoints@, e, node as int) && layer
                == layers@[endpoints@[e].0 as int] + 1,
{
    let mut layer: usize = 0;
    let mut index: usize = 0;
    while index < endpoints.len()
        invariant
            index <= endpoints@.len(),
            node < table@.len(),
            layers@.len() == table@.len(),
            in_range(endpoints@, table@.len() as int),
            forall|i: int| 0 <= i < table@.len() ==> (#[trigger] table@[i])@.len() == table@.len(),
            forall|i: int, j: int|
                0 <= i < table@.len() && 0 <= j < table@.len() ==> #[trigger] cell(table@, i, j)
                    == reaches(endpoints@, i, j),
            forall|i: int| 0 <= i < layers@.len() ==> #[trigger] layers@[i] < table@.len(),
            layer <= table@.len(),
            forall|e: int|
                0 <= e < index && #[trigger] enters(endpoints@, e, node as int) ==> layer
                    >= layers@[endpoints@[e].0 as int] + 1,
            layer == 0 || exists|e: int|
                0 <= e < endpoints@.len() && #[trigger] enters(endpoints@, e, node as int)
                    && layer == layers@[endpoints@[e].0 as int] + 1,
        decreases endpoints@.len() - index,
    {
        let (source, target) = endpoints[index];
        assert(endpoints@[index as int].0 < table@.len());
        assert(table@[target as int]@.len() == table@.len());
        assert(table@[node as int]@.len() == table@.len());
        assert(cell(table@, target as int, node as int) == table@[target as int]@[node as int]);
        assert(cell(table@, node as int, target as int) == table@[node as int]@[target as int]);
        assert(cell(table@, target as int, source as int) == table@[target as int]@[source as int]);
        if table[target][node] && table[node][target] && !table[target][source] {
            assert(enters(endpoints@, index as int, node as int));
            assert(layers@[source as int] < table.len());
            if layers[source] + 1 > layer {
                layer = layers[source] + 1;
            }
        }
        index = index + 1;
    }
    proof {
        let after = layers@.update(node as int, layer);
        assert forall|e: int|
            0 <= e < endpoints@.len() && #[trigger] enters(
                endpoints@,
                e,
                node as int,
            ) implies after[node as int] >= after[endpoints@[e].0 as int] + 1 by {
            lemma_source_differs(endpoints@, e, node as int);
        }
        if layer != 0 {
            let e = choose|e: int|
                0 <= e < endpoints@.len() && #[trigger] enters(endpoints@, e, node as int)
                    && layer == layers@[endpoints@[e].0 as int] + 1;
            lemma_source_differs(endpoints@, e, node as int);
            assert(enters(endpoints@, e, node as int) && after[node as int]
                == after[endpoints@[e].0 as int] + 1);
        }
    }
    layer
}

proof fn lemma_source_differs(endpoints: Endpoints, e: int, v: int)
    requires
        enters(endpoints, e, v),
    ensures
        endpoints[e].0 != v,
{
}

/// Assigns every node its layer, and marks every edge that lies on a cycle.
pub fn graph_layers(node_count: usize, endpoints: &[(usize, usize)]) -> (result: (
    Vec<usize>,
    Vec<bool>,
))
    requires
        in_range(endpoints@, node_count as int),
    ensures
        layered(endpoints@, node_count as int, result.0@),
        forall|v: int| 0 <= v < node_count ==> #[trigger] result.0@[v] < node_count,
        result.1@.len() == endpoints@.len(),
        forall|e: int|
            0 <= e < endpoints@.len() ==> #[trigger] result.1@[e] == reaches(
                endpoints@,
                endpoints@[e].1 as int,
                endpoints@[e].0 as int,
            ),
{
    let table = reachability(node_count, endpoints);
    let mut counts: Vec<usize> = Vec::new();
    let mut layers: Vec<usize> = Vec::new();
    let mut node: usize = 0;
    while node < node_count
        invariant
            node <= node_count,
            table@.len() == node_count,
            forall|i: int| 0 <= i < node_count ==> (#[trigger] table@[i])@.len() == node_count,
            forall|i: int, j: int|
                0 <= i < node_count && 0 <= j < node_count ==> #[trigger] cell(table@, i, j)
                    == reaches(endpoints@, i, j),
            counts@.len() == node,
            layers@.len() == node,
            forall|v: int|
                0 <= v < node ==> #[trigger] counts@[v] == reaching(
                    endpoints@,
                    node_count as nat,
                    v,
                ) && 1 <= counts@[v] <= node_count,
            forall|v: int| 0 <= v < node ==> #[trigger] layers@[v] == 0,
        decreases node_count - node,
    {
        counts.push(count_reaching(&table, endpoints, node));
        layers.push(0);
        node = node + 1;
    }
    let mut size: usize = 0;
    while size < node_count
        invariant
            size <= node_count,
            table@.len() == node_count,
            in_range(endpoints@, node_count as int),
            forall|i: int| 0 <= i < node_count ==> (#[trigger] table@[i])@.len() == node_count,
            forall|i: int, j: int|
                0 <= i < node_count && 0 <= j < node_count ==> #[trigger] cell(table@, i, j)
                    == reaches(endpoints@, i, j),
            counts@.len() == node_count,
            layers@.len() == node_count,
            forall|v: int|
                0 <= v < node_count ==> #[trigger] counts@[v] == reaching(
                    endpoints@,
                    node_count as nat,
                    v,
                ) && 1 <= counts@[v] <= node_count,
            forall|v: int|
                0 <= v < node_count && counts@[v] <= size ==> #[trigger] layer_fits(
                    endpoints@,
                    layers@,
                    v,
                ),
            forall|v: int| 0 <= v < node_count ==> #[trigger] layers@[v] < counts@[v],
        decreases node_count - size,
    {
        size = size + 1;
        let mut node: usize = 0;
        while node < node_count
            invariant
                node <= node_count,
                1 <= size <= node_count,
                table@.len() == node_count,
                in_range(endpoints@, node_count as int),
                forall|i: int| 0 <= i < node_count ==> (#[trigger] table@[i])@.len() == node_count,
                forall|i: int, j: int|
                    0 <= i < node_count && 0 <= j < node_count ==> #[trigger] cell(table@, i, j)
                        == reaches(endpoints@, i, j),
                counts@.len() == node_count,
                layers@.len() == node_count,
                forall|v: int|
                    0 <= v < node_count ==> #[trigger] counts@[v] == reaching(
                        endpoints@,
                        node_count as nat,
                        v,
                    ) && 1 <= counts@[v] <= node_count,
                forall|v: int|
                    0 <= v < node_count && (counts@[v] < size || (counts@[v] == size && v < node))
                        ==> #[trigger] layer_fits(endpoints@, layers@, v),
                forall|v: int| 0 <= v < node_count ==> #[trigger] layers@[v] < counts@[v],
            decreases node_count - node,
        {
            if counts[node] == size {
                assert forall|i: int| 0 <= i < layers@.len() implies #[trigger] layers@[i]
                    < table@.len() by {
                    assert(counts@[i] <= node_count);
                }
                let layer = layer_of(&table, endpoints, &layers, node);
                let ghost before = layers@;
                proof {
                    if layer != 0 {
                        let e = choose|e: int|
                            0 <= e < endpoints@.len() && #[trigger] enters(
                                endpoints@,
                                e,
                                node as int,
                            ) && layer == before[endpoints@[e].0 as int] + 1;
                        lemma_enters_grows(endpoints@, node_count as nat, e, node as int);
                        assert(before[endpoints@[e].0 as int] < counts@[endpoints@[e].0 as int]);
                    }
                }
                layers.set(node, layer);
                assert(layers@ =~= before.update(node as int, layer));
                assert forall|v: int|
                    0 <= v < node_count && (counts@[v] < size || (counts@[v] == size && v
                        <= node)) implies #[trigger] layer_fits(
                    endpoints@,
                    layers@,
                    v,
                ) by {
                    if v != node {
                        assert(layer_fits(endpoints@, before, v));
                        assert forall|e: int|
                            0 <= e < endpoints@.len() && #[trigger] enters(
                                endpoints@,
                                e,
                                v,
                            ) implies endpoints@[e].0 != node by {
                            lemma_enters_grows(endpoints@, node_count as nat, e, v);
                        }
                        if before[v] != 0 {
                            let e = choose|e: int|
                                0 <= e < endpoints@.len() && #[trigger] enters(endpoints@, e, v)
                                    && before[v] == before[endpoints@[e].0 as int] + 1;
                            assert(enters(endpoints@, e, v) && layers@[v]
                                == layers@[endpoints@[e].0 as int] + 1);
                        }
                    }
                }
            }
            node = node + 1;
        }
    }
    let mut cycle_edges: Vec<bool> = Vec::new();
    let mut index: usize = 0;
    while index < endpoints.len()
        invariant
            index <= endpoints@.len(),
            table@.len() == node_count,
            in_range(endpoints@, node_count as int),
            forall|i: int| 0 <= i < node_count ==> (#[trigger] table@[i])@.len() == node_count,
            forall|i: int, j: int|
                0 <= i < node_count && 0 <= j < node_count ==> #[trigger] cell(table@, i, j)
                    == reaches(endpoints@, i, j),
            cycle_edges@.len() == index,
            forall|e: int|
                0 <= e < index ==> #[trigger] cycle_edges@[e] == reaches(
                    endpoints@,
                    endpoints@[e].1 as int,
                    endpoints@[e].0 as int,
                ),
        decreases endpoints@.len() - index,
    {
        let (source, target) = endpoints[index];
        assert(endpoints@[index as int].0 < node_count);
        assert(table@[target as int]@.len() == node_count);
        assert(cell(table@, target as int, source as int) == table@[target as int]@[source as int]);
        cycle_edges.push(table[target][source]);
        index = index + 1;
    }
    assert forall|v: int| 0 <= v < node_count implies #[trigger] layers@[v] < node_count by {
        assert(counts@[v] <= node_count);
    }
    (layers, cycle_edges)
}

/// The two characterizations of an edge that is drawn as a back edge agree: it
/// lies on a cycle exactly when its target is not in a later layer than its source.
pub proof fn law_cycle_edges_do_not_ascend(
    endpoints: Endpoints,
    node_count: int,
    layers: Seq<usize>,
    e: int,
)
    requires
        in_range(endpoints, node_count),
        layered(endpoints, node_count, layers),
        0 <= e < endpoints.len(),
    ensures
        reaches(endpoints, endpoints[e].1 as int, endpoints[e].0 as int) <==> layers[endpoints[e].1 as int]
            <= layers[endpoints[e].0 as int],
{
    let source = endpoints[e].0 as int;
    let target = endpoints[e].1 as int;
    assert(edge(endpoints, source, target));
    lemma_edge_reaches(endpoints, source, target);
    lemma_reaches_itself(endpoints, target);
    if reaches(endpoints, target, source) {
        law_common_cycle_shares_layer(endpoints, node_count, layers, source, target);
    } else {
        assert(enters(endpoints, e, target));
        assert(layer_fits(endpoints, layers, target));
    }
}

/// Nodes on a common cycle share their layer.
pub proof fn law_common_cycle_shares_layer(
    endpoints: Endpoints,
    node_count: int,
    layers: Seq<usize>,
    u: int,
    v: int,
)
    requires
        layered(endpoints, node_count, layers),
        0 <= u < node_count,
        0 <= v < node_count,
        mutual(endpoints, u, v),
    ensures
        layers[u] == layers[v],
{
    lemma_layer_at_most(endpoints, node_count, layers, u, v);
    lemma_layer_at_most(endpoints, node_count, layers, v, u);
}

proof fn lemma_layer_at_most(
    endpoints: Endpoints,
    node_count: int,
    layers: Seq<usize>,
    u: int,
    v: int,
)
    requires
        layered(endpoints, node_count, layers),
        0 <= u < node_count,
        0 <= v < node_count,
        mutual(endpoints, u, v),
    ensures
        layers[u] <= layers[v],
{
    assert(layer_fits(endpoints, layers, u));
    assert(layer_fits(endpoints, layers, v));
    if layers[u] != 0 {
        let e = choose|e: int|
            0 <= e < endpoints.len() && #[trigger] enters(endpoints, e, u) && layers[u]
                == layers[endpoints[e].0 as int] + 1;
        let target = endpoints[e].1 as int;
        lemma_reaches_transitive(endpoints, target, u, v);
        lemma_reaches_transitive(endpoints, v, u, target);
        assert(enters(endpoints, e, v));
    }
}

/// A graph has one layering only, so the layers depend on the edges alone and
/// not on any order in which they are computed.
pub proof fn law_layers_are_unique(
    endpoints: Endpoints,
    node_count: int,
    first: Seq<usize>,
    second: Seq<usize>,
)
    requires
        in_range(endpoints, node_count),
        layered(endpoints, node_count, first),
        layered(endpoints, node_count, second),
    ensures
        first == second,
{
    assert forall|v: int| 0 <= v < node_count implies first[v] == second[v] by {
        lemma_layer_below(endpoints, node_count, first, second, v);
        lemma_layer_below(endpoints, node_count, second, first, v);
    }
    assert(first =~= second);
}

proof fn lemma_layer_below(
    endpoints: Endpoints,
    node_count: int,
    first: Seq<usize>,
    second: Seq<usize>,
    v: int,
)
    requires
        in_range(endpoints, node_count),
        layered(endpoints, node_count, first),
        layered(endpoints, node_count, second),
        0 <= v < node_count,
    ensures
        first[v] <= second[v],
    decreases first[v],
{
    assert(layer_fits(endpoints, first, v));
    assert(layer_fits(endpoints, second, v));
    if first[v] != 0 {
        let e = choose|e: int|
            0 <= e < endpoints.len() && #[trigger] enters(endpoints, e, v) && first[v]
                == first[endpoints[e].0 as int] + 1;
        let source = endpoints[e].0 as int;
        lemma_layer_below(endpoints, node_count, first, second, source);
        assert(second[v] >= second[source] + 1);
    }
}

} // verus!
