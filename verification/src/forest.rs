//! The specialization forest: impls as nodes, an edge from each impl to each
//! more specific one that overlaps it, and the depth of every node below the
//! roots.
use petgraph::graph::Graph;
use petgraph::graphmap::GraphMap;
use petgraph::Directed;
use vstd::prelude::*;

verus! {

/// `petgraph::graphmap::GraphMap`: a graph keyed by its node values, without
/// parallel edges.
#[verifier::external_type_specification]
#[verifier::external_body]
#[verifier::reject_recursive_types(N)]
#[verifier::reject_recursive_types(E)]
#[verifier::reject_recursive_types(Ty)]
pub struct ExGraphMap<N, E, Ty>(GraphMap<N, E, Ty>);

/// `petgraph::graph::Graph`: a graph whose nodes are numbered in the order
/// in which they were added.
#[verifier::external_type_specification]
#[verifier::external_body]
#[verifier::reject_recursive_types(N)]
#[verifier::reject_recursive_types(E)]
#[verifier::reject_recursive_types(Ty)]
#[verifier::reject_recursive_types(Ix)]
pub struct ExGraph<N, E, Ty, Ix>(Graph<N, E, Ty, Ix>);

/// `petgraph::Directed`: the marker of graphs with directed edges.
#[verifier::external_type_specification]
#[verifier::external_body]
pub struct ExDirected(Directed);

/// The nodes of a graph map, in the order in which the map is walked: for
/// a map from which nothing was removed, that in which they first appeared.
pub uninterp spec fn map_nodes(g: GraphMap<usize, (), Directed>) -> Seq<usize>;

/// The edges of a graph map, in the order in which the map is walked: for
/// a map from which nothing was removed, that in which they were added.
pub uninterp spec fn map_edges(g: GraphMap<usize, (), Directed>) -> Seq<(usize, usize)>;

/// The node weights of a graph, by node index.
pub uninterp spec fn graph_weights(g: Graph<usize, (), Directed, usize>) -> Seq<usize>;

/// The edges of a graph as pairs of node indices, source first, by edge
/// index: for a graph from which no edge was removed, in the order in which
/// they were added.
pub uninterp spec fn graph_arcs(g: Graph<usize, (), Directed, usize>) -> Seq<(usize, usize)>;

/// The nodes after `x` appeared once more.
pub open spec fn with_node(nodes: Seq<usize>, x: usize) -> Seq<usize> {
    if nodes.contains(x) {
        nodes
    } else {
        nodes.push(x)
    }
}

/// The targets of the arcs that leave `source`, the most recently added
/// first.
pub open spec fn successors(arcs: Seq<(usize, usize)>, source: usize) -> Seq<usize>
    decreases arcs.len(),
{
    if arcs.len() == 0 {
        Seq::empty()
    } else if arcs.last().0 == source {
        seq![arcs.last().1] + successors(arcs.drop_last(), source)
    } else {
        successors(arcs.drop_last(), source)
    }
}

/// Whether no arc enters the node `v`.
pub open spec fn is_root(arcs: Seq<(usize, usize)>, v: int) -> bool {
    forall|k: int| 0 <= k < arcs.len() ==> (#[trigger] arcs[k]).1 != v
}

/// Whether `arcs` are `edges` with each end replaced by its index in
/// `nodes`.
pub open spec fn arcs_index(
    arcs: Seq<(usize, usize)>,
    nodes: Seq<usize>,
    edges: Seq<(usize, usize)>,
) -> bool {
    &&& arcs.len() == edges.len()
    &&& forall|k: int|
        0 <= k < arcs.len() ==> {
            let arc = #[trigger] arcs[k];
            &&& arc.0 < nodes.len()
            &&& arc.1 < nodes.len()
            &&& nodes[arc.0 as int] == edges[k].0
            &&& nodes[arc.1 as int] == edges[k].1
        }
}

/// Whether `roots` holds exactly the nodes below `n` that no arc enters.
pub open spec fn holds_roots(roots: Seq<usize>, n: nat, arcs: Seq<(usize, usize)>) -> bool {
    forall|v: usize| roots.contains(v) <==> v < n && is_root(arcs, v as int)
}

/// `GraphMap::new`: a graph map without nodes or edges.
#[verifier::external_body]
fn map_new() -> (g: GraphMap<usize, (), Directed>)
    ensures
        map_nodes(g) == Seq::<usize>::empty(),
        map_edges(g) == Seq::<(usize, usize)>::empty(),
{
    GraphMap::new()
}

/// `GraphMap::add_edge`: an edge that the map holds already changes nothing;
/// a new one goes last, and so does each of its ends that is a new node, the
/// source before the target.
#[verifier::external_body]
fn map_add_edge(g: &mut GraphMap<usize, (), Directed>, a: usize, b: usize)
    ensures
        map_edges(*final(g)) == if map_edges(*old(g)).contains((a, b)) {
            map_edges(*old(g))
        } else {
            map_edges(*old(g)).push((a, b))
        },
        map_nodes(*final(g)) == if map_edges(*old(g)).contains((a, b)) {
            map_nodes(*old(g))
        } else {
            with_node(with_node(map_nodes(*old(g)), a), b)
        },
{
    g.add_edge(a, b, ());
}

/// `GraphMap::into_graph`: the nodes keep their order and become the node
/// weights; each edge, in order, becomes the arc between the indices of its
/// ends.
#[verifier::external_body]
fn map_into_graph(g: GraphMap<usize, (), Directed>) -> (r: Graph<usize, (), Directed, usize>)
    ensures
        graph_weights(r) == map_nodes(g),
        arcs_index(graph_arcs(r), map_nodes(g), map_edges(g)),
{
    g.into_graph()
}

/// `Graph::externals` with `Incoming`: the indices of the nodes that no arc
/// enters.
#[verifier::external_body]
fn graph_roots(g: &Graph<usize, (), Directed, usize>) -> (r: Vec<usize>)
    ensures
        holds_roots(r@, graph_weights(*g).len(), graph_arcs(*g)),
{
    g.externals(petgraph::Direction::Incoming).map(|n| n.index()).collect()
}

/// `Graph::neighbors`: the indices of the nodes that an arc from `v` leads
/// to, the most recently added arc first. The order is that of a graph
/// from which no edge was removed: this module makes its graphs by adding
/// alone, and hands none out.
#[verifier::external_body]
fn graph_successors(g: &Graph<usize, (), Directed, usize>, v: usize) -> (r: Vec<usize>)
    ensures
        r@ == successors(graph_arcs(*g), v),
{
    g.neighbors(petgraph::graph::NodeIndex::new(v)).map(|n| n.index()).collect()
}

/// `Graph::node_weight`: the weight of the node `v`, if the graph has it.
#[verifier::external_body]
fn graph_weight(g: &Graph<usize, (), Directed, usize>, v: usize) -> (r: Option<usize>)
    ensures
        r == if v < graph_weights(*g).len() {
            Some(graph_weights(*g)[v as int])
        } else {
            None
        },
{
    g.node_weight(petgraph::graph::NodeIndex::new(v)).copied()
}

/// Whether `rank` shows the arcs to be free of cycles: every arc leads to
/// a node of lower rank, and the ranks fit a machine word.
pub open spec fn ranked(arcs: Seq<(usize, usize)>, rank: Seq<nat>) -> bool {
    &&& forall|k: int|
        0 <= k < arcs.len() ==> {
            let arc = #[trigger] arcs[k];
            arc.0 < rank.len() && arc.1 < rank.len() && rank[arc.0 as int] > rank[arc.1 as int]
        }
    &&& forall|v: int| 0 <= v < rank.len() ==> #[trigger] rank[v] <= usize::MAX
}

/// Whether the depth noted for `b`, where one is noted for `a`, lies below
/// it.
pub open spec fn closed(table: Seq<Option<usize>>, a: int, b: int) -> bool {
    table[a] matches Some(x) ==> (table[b] matches Some(y) && y >= x + 1)
}

/// Whether the depth noted for `v` is 0 at a root and otherwise one more
/// than the depth noted for a node that an arc leads from.
pub open spec fn attained(arcs: Seq<(usize, usize)>, table: Seq<Option<usize>>, v: int) -> bool {
    match table[v] {
        None => true,
        Some(d) => if d == 0 {
            is_root(arcs, v)
        } else {
            exists|k: int|
                0 <= k < arcs.len() && (#[trigger] arcs[k]).1 == v && table[arcs[k].0 as int]
                    == Some((d - 1) as usize)
        },
    }
}

/// Whether an arc from a node under visit to `v` is not closed yet.
pub open spec fn pending(
    arcs: Seq<(usize, usize)>,
    table: Seq<Option<usize>>,
    open: Set<int>,
    v: int,
) -> bool {
    exists|k: int|
        0 <= k < arcs.len() && (#[trigger] arcs[k]).1 == v && open.contains(arcs[k].0 as int)
            && !closed(table, arcs[k].0 as int, v)
}

/// What holds of the noted depths during the traversal: an arc that leaves
/// no node under visit is closed, and every noted depth is attained, or
/// will be raised when a node under visit reaches the arc.
pub open spec fn relaxed(arcs: Seq<(usize, usize)>, table: Seq<Option<usize>>, open: Set<int>) -> bool {
    &&& forall|k: int|
        0 <= k < arcs.len() && !open.contains((#[trigger] arcs[k]).0 as int) ==> closed(
            table,
            arcs[k].0 as int,
            arcs[k].1 as int,
        )
    &&& forall|v: int|
        0 <= v < table.len() ==> #[trigger] attained(arcs, table, v) || pending(
            arcs,
            table,
            open,
            v,
        )
}

/// Whether every depth noted in `before` is noted in `after`, as high or
/// higher.
pub open spec fn grown(before: Seq<Option<usize>>, after: Seq<Option<usize>>) -> bool {
    forall|x: int|
        0 <= x < before.len() ==> ((#[trigger] before[x]) matches Some(d) ==> (
        after[x] matches Some(e) && e >= d))
}

/// Why `v` may have the depth `depth`: it is a root, or an arc leads to it
/// from a node under visit of the depth before.
pub open spec fn justified(
    arcs: Seq<(usize, usize)>,
    table: Seq<Option<usize>>,
    open: Set<int>,
    v: int,
    depth: usize,
) -> bool {
    if depth == 0 {
        is_root(arcs, v)
    } else {
        exists|k: int|
            0 <= k < arcs.len() && (#[trigger] arcs[k]).1 == v && open.contains(arcs[k].0 as int)
                && table[arcs[k].0 as int] == Some((depth - 1) as usize)
    }
}

/// The successors of a node are the targets of the arcs that leave it.
pub proof fn lemma_successors(arcs: Seq<(usize, usize)>, source: usize)
    ensures
        forall|k: int|
            0 <= k < arcs.len() && (#[trigger] arcs[k]).0 == source ==> successors(
                arcs,
                source,
            ).contains(arcs[k].1),
        forall|j: int|
            0 <= j < successors(arcs, source).len() ==> arcs.contains(
                (source, #[trigger] successors(arcs, source)[j]),
            ),
    decreases arcs.len(),
{
    if arcs.len() > 0 {
        let rest = arcs.drop_last();
        lemma_successors(rest, source);
        let s = successors(arcs, source);
        let r = successors(rest, source);
        assert forall|k: int| 0 <= k < arcs.len() && (#[trigger] arcs[k]).0 == source implies s.contains(
            arcs[k].1,
        ) by {
            if k == arcs.len() - 1 {
                assert(s[0] == arcs[k].1);
            } else {
                assert(rest[k] == arcs[k]);
                let i = choose|i: int| 0 <= i < r.len() && r[i] == arcs[k].1;
                if arcs.last().0 == source {
                    assert(s[i + 1] == r[i]);
                }
            }
        }
        assert forall|j: int| 0 <= j < s.len() implies arcs.contains((source, #[trigger] s[j])) by {
            if arcs.last().0 == source && j == 0 {
                assert(arcs[arcs.len() - 1] == (source, s[0]));
            } else {
                let i = if arcs.last().0 == source {
                    j - 1
                } else {
                    j
                };
                assert(s[j] == r[i]);
                let k = choose|k: int| 0 <= k < rest.len() && rest[k] == (source, r[i]);
                assert(arcs[k] == rest[k]);
            }
        }
    }
}

/// Notes the depth `depth` for `v`, unless one as high is noted, and then
/// the depth after it for every node that an arc from `v` leads to.
fn relax(
    g: &Graph<usize, (), Directed, usize>,
    table: &mut Vec<Option<usize>>,
    v: usize,
    depth: usize,
    Ghost(rank): Ghost<Seq<nat>>,
    Ghost(open): Ghost<Set<int>>,
)
    requires
        old(table).len() == rank.len(),
        v < old(table).len(),
        ranked(graph_arcs(*g), rank),
        depth + rank[v as int] <= usize::MAX,
        forall|x: int| open.contains(x) ==> 0 <= x < rank.len() && rank[x] > rank[v as int],
        relaxed(graph_arcs(*g), old(table)@, open),
        justified(graph_arcs(*g), old(table)@, open, v as int, depth),
    ensures
        final(table).len() == old(table).len(),
        relaxed(graph_arcs(*g), final(table)@, open),
        final(table)@[v as int] matches Some(d) && d >= depth,
        grown(old(table)@, final(table)@),
        forall|x: int|
            0 <= x < rank.len() && rank[x] > rank[v as int] ==> final(table)@[x] == old(table)@[x],
    decreases rank[v as int],
{
    let ghost arcs = graph_arcs(*g);
    let ghost before = table@;
    let skip = match table[v] {
        Some(d) => d >= depth,
        None => false,
    };
    if skip {
        return ;
    }
    table.set(v, Some(depth));
    let ghost inner = open.insert(v as int);
    let ghost start = table@;
    proof {
        assert forall|k: int| 0 <= k < arcs.len() && !inner.contains((#[trigger] arcs[k]).0 as int)
            implies closed(start, arcs[k].0 as int, arcs[k].1 as int) by {
            assert(closed(before, arcs[k].0 as int, arcs[k].1 as int));
        }
        assert forall|x: int| 0 <= x < start.len() implies #[trigger] attained(arcs, start, x)
            || pending(arcs, start, inner, x) by {
            if x == v {
                if depth > 0 {
                    let k = choose|k: int|
                        0 <= k < arcs.len() && (#[trigger] arcs[k]).1 == v && open.contains(
                            arcs[k].0 as int,
                        ) && before[arcs[k].0 as int] == Some((depth - 1) as usize);
                    assert(arcs[k].0 != v);
                    assert(start[arcs[k].0 as int] == Some((depth - 1) as usize));
                }
            } else if start[x] is Some {
                let d = start[x]->0;
                assert(attained(arcs, before, x) || pending(arcs, before, open, x));
                if pending(arcs, before, open, x) {
                    let k = choose|k: int|
                        0 <= k < arcs.len() && (#[trigger] arcs[k]).1 == x && open.contains(
                            arcs[k].0 as int,
                        ) && !closed(before, arcs[k].0 as int, x);
                    assert(arcs[k].0 != v);
                    assert(!closed(start, arcs[k].0 as int, x));
                    assert(inner.contains(arcs[k].0 as int));
                } else if d > 0 {
                    let k = choose|k: int|
                        0 <= k < arcs.len() && (#[trigger] arcs[k]).1 == x && before[arcs[k].0 as int]
                            == Some((d - 1) as usize);
                    if arcs[k].0 == v {
                        assert(!closed(start, v as int, x));
                        assert(inner.contains(arcs[k].0 as int));
                        assert(pending(arcs, start, inner, x));
                    } else {
                        assert(start[arcs[k].0 as int] == Some((d - 1) as usize));
                    }
                }
            }
        }
        lemma_successors(arcs, v);
    }
    let next = graph_successors(g, v);
    let mut j: usize = 0;
    while j < next.len()
        invariant
            j <= next.len(),
            arcs == graph_arcs(*g),
            inner == open.insert(v as int),
            next@ == successors(arcs, v),
            table.len() == rank.len(),
            old(table).len() == rank.len(),
            v < table.len(),
            ranked(arcs, rank),
            depth + rank[v as int] <= usize::MAX,
            forall|x: int| open.contains(x) ==> 0 <= x < rank.len() && rank[x] > rank[v as int],
            forall|i: int|
                0 <= i < next@.len() ==> arcs.contains((v, #[trigger] next@[i])),
            relaxed(arcs, table@, inner),
            table@[v as int] == Some(depth),
            grown(old(table)@, table@),
            forall|x: int|
                0 <= x < rank.len() && rank[x] > rank[v as int] ==> table@[x] == old(table)@[x],
            forall|i: int| 0 <= i < j ==> closed(table@, v as int, #[trigger] next@[i] as int),
        decreases next.len() - j,
    {
        let child = next[j];
        let ghost previous = table@;
        proof {
            assert(arcs.contains((v, next@[j as int])));
            let k = choose|k: int| 0 <= k < arcs.len() && arcs[k] == (v, child);
            assert(arcs[k].1 == child);
            assert(inner.contains(arcs[k].0 as int));
            assert(justified(arcs, table@, inner, child as int, (depth + 1) as usize));
        }
        relax(g, table, child, depth + 1, Ghost(rank), Ghost(inner));
        proof {
            assert(grown(old(table)@, table@)) by {
                assert forall|x: int| 0 <= x < old(table)@.len() implies ((
                #[trigger] old(table)@[x]) matches Some(d) ==> (table@[x] matches Some(e) && e
                    >= d)) by {
                    if old(table)@[x] is Some {
                        assert(previous[x] is Some);
                        assert(table@[x] is Some);
                    }
                }
            }
            assert forall|i: int| 0 <= i < j + 1 implies closed(
                table@,
                v as int,
                #[trigger] next@[i] as int,
            ) by {
                if i < j {
                    assert(closed(previous, v as int, next@[i] as int));
                    assert(previous[next@[i] as int] is Some);
                }
            }
        }
        j = j + 1;
    }
    proof {
        let done = table@;
        assert forall|k: int| 0 <= k < arcs.len() && !open.contains((#[trigger] arcs[k]).0 as int)
            implies closed(done, arcs[k].0 as int, arcs[k].1 as int) by {
            if arcs[k].0 == v {
                assert(next@.contains(arcs[k].1));
                let i = choose|i: int| 0 <= i < next@.len() && next@[i] == arcs[k].1;
                assert(closed(done, v as int, next@[i] as int));
            }
        }
        assert forall|x: int| 0 <= x < done.len() implies #[trigger] attained(arcs, done, x)
            || pending(arcs, done, open, x) by {
            assert(attained(arcs, done, x) || pending(arcs, done, inner, x));
            if !attained(arcs, done, x) {
                let k = choose|k: int|
                    0 <= k < arcs.len() && (#[trigger] arcs[k]).1 == x && inner.contains(
                        arcs[k].0 as int,
                    ) && !closed(done, arcs[k].0 as int, x);
                if arcs[k].0 == v {
                    assert(next@.contains(arcs[k].1));
                    let i = choose|i: int| 0 <= i < next@.len() && next@[i] == arcs[k].1;
                    assert(closed(done, v as int, next@[i] as int));
                }
            }
        }
    }
}

/// Where every root has a depth noted and no node is under visit, every
/// node has one: it is a root, or an arc leads to it from a node of higher
/// rank, which has one.
proof fn lemma_all_noted(
    arcs: Seq<(usize, usize)>,
    table: Seq<Option<usize>>,
    rank: Seq<nat>,
    v: int,
)
    requires
        ranked(arcs, rank),
        table.len() == rank.len(),
        relaxed(arcs, table, Set::empty()),
        forall|r: int| 0 <= r < table.len() && is_root(arcs, r) ==> (#[trigger] table[r]) is Some,
        0 <= v < table.len(),
    ensures
        table[v] is Some,
    decreases usize::MAX - rank[v],
{
    if !is_root(arcs, v) {
        let k = choose|k: int| 0 <= k < arcs.len() && (#[trigger] arcs[k]).1 == v;
        lemma_all_noted(arcs, table, rank, arcs[k].0 as int);
        assert(closed(table, arcs[k].0 as int, arcs[k].1 as int));
    }
}

/// The depth of every node of `g` below the roots, by node index.
fn depths(g: &Graph<usize, (), Directed, usize>, Ghost(rank): Ghost<Seq<nat>>) -> (table: Vec<
    Option<usize>,
>)
    requires
        ranked(graph_arcs(*g), rank),
        rank.len() == graph_weights(*g).len(),
    ensures
        table.len() == graph_weights(*g).len(),
        relaxed(graph_arcs(*g), table@, Set::empty()),
        forall|v: int| 0 <= v < table.len() ==> (#[trigger] table@[v]) is Some,
{
    let ghost arcs = graph_arcs(*g);
    let mut table: Vec<Option<usize>> = Vec::new();
    while graph_weight(g, table.len()).is_some()
        invariant
            table.len() <= graph_weights(*g).len(),
            forall|v: int| 0 <= v < table.len() ==> (#[trigger] table@[v]) is None,
        decreases graph_weights(*g).len() - table.len(),
    {
        table.push(None);
    }
    let roots = graph_roots(g);
    let mut i: usize = 0;
    while i < roots.len()
        invariant
            i <= roots.len(),
            arcs == graph_arcs(*g),
            ranked(arcs, rank),
            table.len() == rank.len(),
            holds_roots(roots@, rank.len(), arcs),
            relaxed(arcs, table@, Set::empty()),
            forall|j: int| 0 <= j < i ==> table@[#[trigger] roots@[j] as int] is Some,
        decreases roots.len() - i,
    {
        let root = roots[i];
        let ghost previous = table@;
        assert(roots@.contains(root));
        relax(g, &mut table, root, 0, Ghost(rank), Ghost(Set::empty()));
        proof {
            assert forall|j: int| 0 <= j < i + 1 implies table@[#[trigger] roots@[j] as int] is Some by {
                if j < i {
                    assert(roots@.contains(roots@[j]));
                    assert(previous[roots@[j] as int] is Some);
                }
            }
        }
        i = i + 1;
    }
    proof {
        assert forall|r: int| 0 <= r < table.len() && is_root(arcs, r) implies (
        #[trigger] table@[r]) is Some by {
            assert(roots@.contains(r as usize));
            let j = choose|j: int| 0 <= j < roots@.len() && roots@[j] == r as usize;
            assert(table@[roots@[j] as int] is Some);
        }
        assert forall|v: int| 0 <= v < table.len() implies (#[trigger] table@[v]) is Some by {
            lemma_all_noted(arcs, table@, rank, v);
        }
    }
    table
}

/// Whether `x` is an end of one of the edges.
pub open spec fn is_end(edges: Seq<(usize, usize)>, x: usize) -> bool {
    exists|k: int| 0 <= k < edges.len() && ((#[trigger] edges[k]).0 == x || edges[k].1 == x)
}

/// Whether every end of the edges lies below `count`.
pub open spec fn ends_below(edges: Seq<(usize, usize)>, count: nat) -> bool {
    forall|k: int| 0 <= k < edges.len() ==> (#[trigger] edges[k]).0 < count && edges[k].1 < count
}

/// Whether `rank` shows the edges to be free of cycles: every edge leads to
/// a node of lower rank, and the ranks in use fit a machine word.
pub open spec fn descends(edges: Seq<(usize, usize)>, rank: spec_fn(usize) -> nat) -> bool {
    forall|k: int|
        0 <= k < edges.len() ==> rank((#[trigger] edges[k]).0) > rank(edges[k].1) && rank(
            edges[k].0,
        ) <= usize::MAX
}

/// Whether the edges form no cycle.
pub open spec fn acyclic(edges: Seq<(usize, usize)>) -> bool {
    exists|rank: spec_fn(usize) -> nat| descends(edges, rank)
}

/// What the graph map holds after some of `edges` were added: nothing but
/// them, no node twice, and as nodes exactly the ends of its edges.
spec fn gathered(nodes: Seq<usize>, held: Seq<(usize, usize)>, edges: Seq<(usize, usize)>) -> bool {
    &&& nodes.no_duplicates()
    &&& forall|k: int| 0 <= k < held.len() ==> edges.contains(#[trigger] held[k])
    &&& forall|k: int|
        0 <= k < held.len() ==> nodes.contains((#[trigger] held[k]).0) && nodes.contains(held[k].1)
    &&& forall|i: int| 0 <= i < nodes.len() ==> is_end(held, #[trigger] nodes[i])
}

/// One more node keeps the nodes distinct and those that were there.
proof fn lemma_with_node(nodes: Seq<usize>, x: usize)
    requires
        nodes.no_duplicates(),
    ensures
        with_node(nodes, x).no_duplicates(),
        with_node(nodes, x).contains(x),
        forall|y: usize| nodes.contains(y) ==> with_node(nodes, x).contains(y),
        forall|i: int|
            0 <= i < with_node(nodes, x).len() ==> nodes.contains(
                #[trigger] with_node(nodes, x)[i],
            ) || with_node(nodes, x)[i] == x,
{
    let w = with_node(nodes, x);
    if !nodes.contains(x) {
        assert(w[nodes.len() as int] == x);
        assert forall|y: usize| nodes.contains(y) implies w.contains(y) by {
            let i = choose|i: int| 0 <= i < nodes.len() && nodes[i] == y;
            assert(w[i] == y);
        }
        assert forall|i: int| 0 <= i < w.len() implies nodes.contains(#[trigger] w[i]) || w[i]
            == x by {
            if i < nodes.len() {
                assert(nodes[i] == w[i]);
            }
        }
    }
}

/// The graph of the edges: each end of an edge is one node, and each edge
/// that differs from those before it is one arc.
fn build(edges: &Vec<(usize, usize)>) -> (g: Graph<usize, (), Directed, usize>)
    ensures
        graph_weights(g).no_duplicates(),
        forall|i: int|
            0 <= i < graph_weights(g).len() ==> is_end(edges@, #[trigger] graph_weights(g)[i]),
        forall|k: int|
            0 <= k < edges@.len() ==> covered(graph_weights(g), graph_arcs(g), #[trigger] edges@[k]),
        forall|m: int|
            0 <= m < graph_arcs(g).len() ==> grounded(
                graph_weights(g),
                #[trigger] graph_arcs(g)[m],
                edges@,
            ),
{
    let mut map = map_new();
    let mut i: usize = 0;
    while i < edges.len()
        invariant
            i <= edges.len(),
            gathered(map_nodes(map), map_edges(map), edges@),
            forall|k: int| 0 <= k < i ==> map_edges(map).contains(#[trigger] edges@[k]),
        decreases edges.len() - i,
    {
        let ghost nodes = map_nodes(map);
        let ghost held = map_edges(map);
        let (a, b) = edges[i];
        map_add_edge(&mut map, a, b);
        proof {
            let nodes2 = map_nodes(map);
            let held2 = map_edges(map);
            if !held.contains((a, b)) {
                lemma_with_node(nodes, a);
                lemma_with_node(with_node(nodes, a), b);
                assert(held2[held.len() as int] == (a, b));
                assert forall|k: int| 0 <= k < held2.len() implies edges@.contains(
                    #[trigger] held2[k],
                ) by {
                    if k < held.len() {
                        assert(held[k] == held2[k]);
                    } else {
                        assert(edges@[i as int] == held2[k]);
                    }
                }
                assert forall|k: int| 0 <= k < held2.len() implies nodes2.contains(
                    (#[trigger] held2[k]).0,
                ) && nodes2.contains(held2[k].1) by {
                    if k < held.len() {
                        assert(held[k] == held2[k]);
                        assert(nodes.contains(held[k].0) && nodes.contains(held[k].1));
                    }
                }
                assert forall|j: int| 0 <= j < nodes2.len() implies is_end(
                    held2,
                    #[trigger] nodes2[j],
                ) by {
                    let x = nodes2[j];
                    if nodes.contains(x) {
                        let j0 = choose|j0: int| 0 <= j0 < nodes.len() && nodes[j0] == x;
                        assert(is_end(held, nodes[j0]));
                        let k = choose|k: int|
                            0 <= k < held.len() && ((#[trigger] held[k]).0 == x || held[k].1 == x);
                        assert(held2[k] == held[k]);
                    } else {
                        assert(held2[held.len() as int].0 == x || held2[held.len() as int].1 == x);
                    }
                }
                assert forall|k: int| 0 <= k < i + 1 implies held2.contains(#[trigger] edges@[k]) by {
                    if k < i {
                        let m = choose|m: int| 0 <= m < held.len() && held[m] == edges@[k];
                        assert(held2[m] == edges@[k]);
                    }
                }
            }
        }
        i = i + 1;
    }
    let ghost nodes = map_nodes(map);
    let ghost held = map_edges(map);
    let g = map_into_graph(map);
    proof {
        let arcs = graph_arcs(g);
        assert forall|j: int| 0 <= j < nodes.len() implies is_end(edges@, #[trigger] nodes[j]) by {
            assert(is_end(held, nodes[j]));
            let m = choose|m: int|
                0 <= m < held.len() && ((#[trigger] held[m]).0 == nodes[j] || held[m].1
                    == nodes[j]);
            assert(edges@.contains(held[m]));
            let k = choose|k: int| 0 <= k < edges@.len() && edges@[k] == held[m];
            assert(edges@[k].0 == nodes[j] || edges@[k].1 == nodes[j]);
        }
        assert forall|k: int| 0 <= k < edges@.len() implies covered(
            nodes,
            arcs,
            #[trigger] edges@[k],
        ) by {
            assert(held.contains(edges@[k]));
            let m = choose|m: int| 0 <= m < held.len() && held[m] == edges@[k];
            assert(lies_over(nodes, arcs[m], edges@[k]));
        }
        assert forall|m: int| 0 <= m < arcs.len() implies grounded(
            nodes,
            #[trigger] arcs[m],
            edges@,
        ) by {
            assert(edges@.contains(held[m]));
            let k = choose|k: int| 0 <= k < edges@.len() && edges@[k] == held[m];
            assert(lies_over(nodes, arcs[m], edges@[k]));
        }
    }
    g
}

/// Whether one of `arcs` lies over `edge`.
pub open spec fn covered(nodes: Seq<usize>, arcs: Seq<(usize, usize)>, edge: (usize, usize)) -> bool {
    exists|m: int| 0 <= m < arcs.len() && lies_over(nodes, #[trigger] arcs[m], edge)
}

/// Whether `arc` lies over one of `edges`.
pub open spec fn grounded(nodes: Seq<usize>, arc: (usize, usize), edges: Seq<(usize, usize)>) -> bool {
    exists|k: int| 0 <= k < edges.len() && lies_over(nodes, arc, #[trigger] edges[k])
}

/// Whether `arc` joins the indices in `nodes` of the ends of `edge`.
pub open spec fn lies_over(nodes: Seq<usize>, arc: (usize, usize), edge: (usize, usize)) -> bool {
    &&& arc.0 < nodes.len()
    &&& arc.1 < nodes.len()
    &&& nodes[arc.0 as int] == edge.0
    &&& nodes[arc.1 as int] == edge.1
}

/// The depth of every impl in the forest of `edges`, by impl: each edge
/// leads from an impl to a more specific one. An impl that no edge enters
/// has the depth 0; any other lies one below the deepest impl that an edge
/// leads from; an impl that is no end of an edge has none. `count` is the
/// number of impls.
pub fn specialization_depths(count: usize, edges: &Vec<(usize, usize)>) -> (r: Vec<Option<usize>>)
    requires
        ends_below(edges@, count as nat),
        acyclic(edges@),
    ensures
        r.len() == count,
        forall|x: usize| x < count ==> ((#[trigger] r@[x as int]) is Some <==> is_end(edges@, x)),
        relaxed(edges@, r@, Set::empty()),
{
    let g = build(edges);
    let ghost weights = graph_weights(g);
    let ghost arcs = graph_arcs(g);
    let ghost by_impl = choose|rank: spec_fn(usize) -> nat| descends(edges@, rank);
    let ghost rank = Seq::new(weights.len(), |v: int| by_impl(weights[v]));
    proof {
        assert forall|m: int| 0 <= m < arcs.len() implies {
            let arc = #[trigger] arcs[m];
            arc.0 < rank.len() && arc.1 < rank.len() && rank[arc.0 as int] > rank[arc.1 as int]
        } by {
            assert(grounded(weights, arcs[m], edges@));
        }
        assert forall|v: int| 0 <= v < rank.len() implies #[trigger] rank[v] <= usize::MAX by {
            assert(is_end(edges@, weights[v]));
        }
    }
    let table = depths(&g, Ghost(rank));
    let mut out: Vec<Option<usize>> = Vec::new();
    while out.len() < count
        invariant
            out.len() <= count,
            forall|x: int| 0 <= x < out.len() ==> (#[trigger] out@[x]) is None,
        decreases count - out.len(),
    {
        out.push(None);
    }
    let mut v: usize = 0;
    while v < table.len()
        invariant
            v <= table.len(),
            out.len() == count,
            weights == graph_weights(g),
            table.len() == weights.len(),
            weights.no_duplicates(),
            ends_below(edges@, count as nat),
            forall|i: int| 0 <= i < weights.len() ==> is_end(edges@, #[trigger] weights[i]),
            forall|i: int| 0 <= i < v ==> out@[#[trigger] weights[i] as int] == table@[i],
            forall|x: int|
                0 <= x < count && (forall|i: int| 0 <= i < v ==> weights[i] != x) ==> (
                #[trigger] out@[x]) is None,
        decreases table.len() - v,
    {
        let ghost previous = out@;
        match graph_weight(&g, v) {
            Some(w) => {
                assert(is_end(edges@, weights[v as int]));
                out.set(w, table[v]);
                proof {
                    assert forall|i: int| 0 <= i < v + 1 implies out@[#[trigger] weights[i] as int]
                        == table@[i] by {
                        if i < v {
                            assert(previous[weights[i] as int] == table@[i]);
                        }
                    }
                    assert forall|x: int|
                        0 <= x < count && (forall|i: int|
                            0 <= i < v + 1 ==> weights[i] != x) implies (#[trigger] out@[x]) is None by {
                        assert(weights[v as int] != x);
                        assert(previous[x] is None);
                    }
                }
            },
            None => {},
        }
        v = v + 1;
    }
    proof {
        let noted = out@;
        let found = table@;
        assert forall|x: usize| x < count implies ((#[trigger] noted[x as int]) is Some <==> is_end(
            edges@,
            x,
        )) by {
            if noted[x as int] is Some {
                if forall|i: int| 0 <= i < weights.len() ==> weights[i] != x {
                    assert(noted[x as int] is None);
                }
                let i = choose|i: int| 0 <= i < weights.len() && weights[i] == x;
                assert(is_end(edges@, weights[i]));
            }
            if is_end(edges@, x) {
                let k = choose|k: int|
                    0 <= k < edges@.len() && ((#[trigger] edges@[k]).0 == x || edges@[k].1 == x);
                assert(covered(weights, arcs, edges@[k]));
                let m = choose|m: int|
                    0 <= m < arcs.len() && lies_over(weights, #[trigger] arcs[m], edges@[k]);
                let i = if edges@[k].0 == x {
                    arcs[m].0
                } else {
                    arcs[m].1
                };
                assert(noted[weights[i as int] as int] == found[i as int]);
            }
        }
        assert forall|k: int| 0 <= k < edges@.len() implies closed(
            noted,
            (#[trigger] edges@[k]).0 as int,
            edges@[k].1 as int,
        ) by {
            assert(covered(weights, arcs, edges@[k]));
            let m = choose|m: int|
                0 <= m < arcs.len() && lies_over(weights, #[trigger] arcs[m], edges@[k]);
            assert(closed(found, arcs[m].0 as int, arcs[m].1 as int));
            assert(noted[weights[arcs[m].0 as int] as int] == found[arcs[m].0 as int]);
            assert(noted[weights[arcs[m].1 as int] as int] == found[arcs[m].1 as int]);
        }
        assert forall|x: int| 0 <= x < noted.len() implies #[trigger] attained(edges@, noted, x) by {
            if noted[x] is Some {
                let p = noted[x]->0;
                if forall|i: int| 0 <= i < weights.len() ==> weights[i] != x {
                    assert(noted[x] is None);
                }
                let i = choose|i: int| 0 <= i < weights.len() && weights[i] == x;
                assert(noted[weights[i] as int] == found[i]);
                assert(attained(arcs, found, i) || pending(arcs, found, Set::empty(), i));
                assert(attained(arcs, found, i));
                if p == 0 {
                    assert forall|k: int| 0 <= k < edges@.len() implies (#[trigger] edges@[k]).1
                        != x by {
                        if edges@[k].1 == x {
                            assert(covered(weights, arcs, edges@[k]));
                            let m = choose|m: int|
                                0 <= m < arcs.len() && lies_over(
                                    weights,
                                    #[trigger] arcs[m],
                                    edges@[k],
                                );
                            assert(arcs[m].1 == i);
                        }
                    }
                } else {
                    let m = choose|m: int|
                        0 <= m < arcs.len() && (#[trigger] arcs[m]).1 == i && found[arcs[m].0 as int]
                            == Some((p - 1) as usize);
                    assert(grounded(weights, arcs[m], edges@));
                    let k = choose|k: int|
                        0 <= k < edges@.len() && lies_over(weights, arcs[m], #[trigger] edges@[k]);
                    assert(noted[weights[arcs[m].0 as int] as int] == found[arcs[m].0 as int]);
                    assert(edges@[k].1 == x);
                    assert(noted[edges@[k].0 as int] == Some((p - 1) as usize));
                }
            }
        }
    }
    out
}

/// In a forest without cycles the depths are determined: where two tables
/// note depths for the same impls and both are as [`specialization_depths`]
/// leaves them, no depth of the first exceeds that of the second.
pub proof fn lemma_depths_below(
    edges: Seq<(usize, usize)>,
    rank: spec_fn(usize) -> nat,
    first: Seq<Option<usize>>,
    second: Seq<Option<usize>>,
    x: usize,
)
    requires
        descends(edges, rank),
        ends_below(edges, first.len()),
        first.len() == second.len(),
        relaxed(edges, first, Set::empty()),
        relaxed(edges, second, Set::empty()),
        forall|y: int| 0 <= y < first.len() ==> (first[y] is Some <==> second[y] is Some),
        x < first.len(),
        first[x as int] is Some,
    ensures
        first[x as int]->0 <= second[x as int]->0,
    decreases usize::MAX - rank(x),
{
    let p = first[x as int]->0;
    assert(attained(edges, first, x as int) || pending(edges, first, Set::empty(), x as int));
    if p > 0 {
        let k = choose|k: int|
            0 <= k < edges.len() && (#[trigger] edges[k]).1 == x && first[edges[k].0 as int]
                == Some((p - 1) as usize);
        assert(closed(second, edges[k].0 as int, edges[k].1 as int));
        lemma_depths_below(edges, rank, first, second, edges[k].0);
    }
}

/// The depths of a forest without cycles are unique: two tables that note
/// depths for the same impls, each 0 at a root and otherwise one more than
/// the greatest depth among the impls that an edge leads from, are equal.
pub proof fn law_depths_unique(
    edges: Seq<(usize, usize)>,
    first: Seq<Option<usize>>,
    second: Seq<Option<usize>>,
)
    requires
        acyclic(edges),
        ends_below(edges, first.len()),
        first.len() == second.len(),
        first.len() <= usize::MAX,
        relaxed(edges, first, Set::empty()),
        relaxed(edges, second, Set::empty()),
        forall|y: int| 0 <= y < first.len() ==> (first[y] is Some <==> second[y] is Some),
    ensures
        first == second,
{
    let rank = choose|rank: spec_fn(usize) -> nat| descends(edges, rank);
    assert forall|y: int| 0 <= y < first.len() implies first[y] == second[y] by {
        if first[y] is Some {
            lemma_depths_below(edges, rank, first, second, y as usize);
            lemma_depths_below(edges, rank, second, first, y as usize);
        }
    }
    assert(first =~= second);
}

/// In a forest proper, where a single edge enters an impl, the impl lies
/// exactly one below the impl that the edge leads from; an impl that no
/// edge enters has the depth 0.
pub proof fn law_depth_below_parent(edges: Seq<(usize, usize)>, depths: Seq<Option<usize>>, x: usize)
    requires
        ends_below(edges, depths.len()),
        relaxed(edges, depths, Set::empty()),
        x < depths.len(),
        depths[x as int] is Some,
    ensures
        is_root(edges, x as int) ==> depths[x as int] == Some(0usize),
        forall|k: int|
            0 <= k < edges.len() && (#[trigger] edges[k]).1 == x && (forall|j: int|
                0 <= j < edges.len() && (#[trigger] edges[j]).1 == x ==> edges[j].0 == edges[k].0)
                ==> depths[edges[k].0 as int] is Some && depths[x as int]->0
                == depths[edges[k].0 as int]->0 + 1,
{
    let p = depths[x as int]->0;
    assert(attained(edges, depths, x as int) || pending(edges, depths, Set::empty(), x as int));
    assert forall|k: int|
        0 <= k < edges.len() && (#[trigger] edges[k]).1 == x && (forall|j: int|
            0 <= j < edges.len() && (#[trigger] edges[j]).1 == x ==> edges[j].0
                == edges[k].0) implies depths[edges[k].0 as int] is Some && depths[x as int]->0
        == depths[edges[k].0 as int]->0 + 1 by {
        assert(!is_root(edges, x as int));
        let j = choose|j: int|
            0 <= j < edges.len() && (#[trigger] edges[j]).1 == x && depths[edges[j].0 as int]
                == Some((p - 1) as usize);
        assert(edges[j].0 == edges[k].0);
    }
}

/// How many of the entries are empty.
pub open spec fn count_none(s: Seq<Option<usize>>) -> nat
    decreases s.len(),
{
    if s.len() == 0 {
        0
    } else {
        count_none(s.drop_last()) + if s.last() is None {
            1nat
        } else {
            0nat
        }
    }
}

/// Where entries are filled and none is emptied, no more are empty; where
/// `x` is among those filled, fewer are.
proof fn lemma_count_none(before: Seq<Option<usize>>, after: Seq<Option<usize>>)
    requires
        before.len() == after.len(),
        forall|v: int| 0 <= v < before.len() && before[v] is Some ==> after[v] is Some,
    ensures
        count_none(after) <= count_none(before),
        count_none(before) <= before.len(),
        forall|x: int|
            0 <= x < before.len() && before[x] is None && after[x] is Some ==> count_none(after)
                < count_none(before),
    decreases before.len(),
{
    if before.len() > 0 {
        let shorter = before.drop_last();
        lemma_count_none(shorter, after.drop_last());
        assert forall|x: int|
            0 <= x < before.len() && before[x] is None && after[x] is Some implies count_none(after)
            < count_none(before) by {
            if x < shorter.len() {
                assert(shorter[x] is None && after.drop_last()[x] is Some);
            }
        }
    }
}

/// Whether an edge leads to `x` from an impl without a layer.
pub open spec fn blocked(edges: Seq<(usize, usize)>, layers: Seq<Option<usize>>, x: int) -> bool {
    exists|k: int|
        0 <= k < edges.len() && (#[trigger] edges[k]).1 == x && layers[edges[k].0 as int] is None
}

/// Whether the layers given so far lie below `round` and rise along every
/// edge that leads to an impl with a layer.
pub open spec fn layered(edges: Seq<(usize, usize)>, layers: Seq<Option<usize>>, round: nat) -> bool {
    forall|x: int|
        0 <= x < layers.len() ==> ((#[trigger] layers[x]) matches Some(l) ==> l < round
            && forall|k: int|
            0 <= k < edges.len() && (#[trigger] edges[k]).1 == x ==> (
            layers[edges[k].0 as int] matches Some(la) && la < l))
}

/// Where every impl without a layer is blocked, and a ranking shows the
/// edges to be free of cycles, every impl has a layer: an impl without one
/// would lie below another of higher rank without one.
proof fn lemma_stuck(
    edges: Seq<(usize, usize)>,
    layers: Seq<Option<usize>>,
    rank: spec_fn(usize) -> nat,
    x: usize,
)
    requires
        descends(edges, rank),
        ends_below(edges, layers.len()),
        forall|y: int| 0 <= y < layers.len() && layers[y] is None ==> blocked(edges, layers, y),
        x < layers.len(),
    ensures
        layers[x as int] is Some,
    decreases usize::MAX - rank(x),
{
    if layers[x as int] is None {
        assert(blocked(edges, layers, x as int));
        let k = choose|k: int|
            0 <= k < edges.len() && (#[trigger] edges[k]).1 == x && layers[edges[k].0 as int]
                is None;
        lemma_stuck(edges, layers, rank, edges[k].0);
    }
}

/// For each impl, whether an edge leads to it from an impl without a
/// layer.
fn mark_blocked(edges: &Vec<(usize, usize)>, layers: &Vec<Option<usize>>) -> (r: Vec<bool>)
    requires
        ends_below(edges@, layers@.len()),
    ensures
        r.len() == layers.len(),
        forall|x: int| 0 <= x < r.len() ==> #[trigger] r@[x] == blocked(edges@, layers@, x),
{
    let mut marks: Vec<bool> = Vec::new();
    while marks.len() < layers.len()
        invariant
            marks.len() <= layers.len(),
            forall|x: int| 0 <= x < marks.len() ==> !(#[trigger] marks@[x]),
        decreases layers.len() - marks.len(),
    {
        marks.push(false);
    }
    let mut k: usize = 0;
    while k < edges.len()
        invariant
            k <= edges.len(),
            marks.len() == layers.len(),
            ends_below(edges@, layers@.len()),
            forall|x: int|
                0 <= x < marks.len() ==> #[trigger] marks@[x] == blocked(
                    edges@.take(k as int),
                    layers@,
                    x,
                ),
        decreases edges.len() - k,
    {
        let (a, b) = edges[k];
        let ghost before = marks@;
        if layers[a].is_none() {
            marks.set(b, true);
        }
        proof {
            let prefix = edges@.take(k as int);
            let longer = edges@.take(k + 1);
            assert forall|x: int| 0 <= x < marks.len() implies #[trigger] marks@[x] == blocked(
                longer,
                layers@,
                x,
            ) by {
                if blocked(prefix, layers@, x) {
                    let j = choose|j: int|
                        0 <= j < prefix.len() && (#[trigger] prefix[j]).1 == x
                            && layers@[prefix[j].0 as int] is None;
                    assert(longer[j] == prefix[j]);
                }
                if blocked(longer, layers@, x) {
                    let j = choose|j: int|
                        0 <= j < longer.len() && (#[trigger] longer[j]).1 == x
                            && layers@[longer[j].0 as int] is None;
                    if j < k {
                        assert(prefix[j] == longer[j]);
                    }
                }
                if layers@[a as int] is None && b == x {
                    assert(longer[k as int] == (a, b));
                }
            }
        }
        k = k + 1;
    }
    assert(edges@.take(edges.len() as int) =~= edges@);
    marks
}

/// Gives the layer `round` to every impl that has none and is not blocked.
fn fill_layer(layers: &mut Vec<Option<usize>>, marks: &Vec<bool>, round: usize) -> (progress: bool)
    requires
        marks.len() == old(layers).len(),
    ensures
        final(layers).len() == old(layers).len(),
        forall|x: int|
            0 <= x < old(layers).len() ==> #[trigger] final(layers)@[x] == if old(layers)@[x]
                is None && !marks@[x] {
                Some(round)
            } else {
                old(layers)@[x]
            },
        progress == exists|x: int|
            0 <= x < old(layers).len() && (#[trigger] old(layers)@[x]) is None && !marks@[x],
{
    let mut progress = false;
    let mut x: usize = 0;
    while x < layers.len()
        invariant
            x <= layers.len(),
            layers.len() == old(layers).len(),
            marks.len() == layers.len(),
            forall|y: int|
                0 <= y < x ==> #[trigger] layers@[y] == if old(layers)@[y] is None && !marks@[y] {
                    Some(round)
                } else {
                    old(layers)@[y]
                },
            forall|y: int| x <= y < layers.len() ==> #[trigger] layers@[y] == old(layers)@[y],
            progress == exists|y: int|
                0 <= y < x && (#[trigger] old(layers)@[y]) is None && !marks@[y],
        decreases layers.len() - x,
    {
        if layers[x].is_none() && !marks[x] {
            layers.set(x, Some(round));
            progress = true;
            assert(old(layers)@[x as int] is None && !marks@[x as int]);
        }
        x = x + 1;
    }
    progress
}

/// Whether `edges` join impls below `count` without forming a cycle: the
/// impls are laid in layers, an impl into the first layer in which every
/// edge that leads to it comes from a layer before.
pub fn is_forest(count: usize, edges: &Vec<(usize, usize)>) -> (r: bool)
    ensures
        r == (ends_below(edges@, count as nat) && acyclic(edges@)),
{
    let mut k: usize = 0;
    while k < edges.len()
        invariant
            k <= edges.len(),
            forall|j: int| 0 <= j < k ==> (#[trigger] edges@[j]).0 < count && edges@[j].1 < count,
        decreases edges.len() - k,
    {
        if edges[k].0 >= count || edges[k].1 >= count {
            return false;
        }
        k = k + 1;
    }
    let mut layers: Vec<Option<usize>> = Vec::new();
    while layers.len() < count
        invariant
            layers.len() <= count,
            forall|x: int| 0 <= x < layers.len() ==> (#[trigger] layers@[x]) is None,
        decreases count - layers.len(),
    {
        layers.push(None);
    }
    let mut round: usize = 0;
    proof {
        lemma_count_none(layers@, layers@);
    }
    loop
        invariant
            round + count_none(layers@) <= count,
            layers.len() == count,
            ends_below(edges@, count as nat),
            layered(edges@, layers@, round as nat),
        ensures
            forall|y: int| 0 <= y < layers.len() && layers@[y] is None ==> blocked(
                edges@,
                layers@,
                y,
            ),
        decreases count_none(layers@),
    {
        let marks = mark_blocked(edges, &layers);
        let ghost before = layers@;
        let progress = fill_layer(&mut layers, &marks, round);
        if !progress {
            proof {
                assert(layers@ =~= before);
                assert forall|y: int| 0 <= y < layers.len() && layers@[y] is None implies blocked(
                    edges@,
                    layers@,
                    y,
                ) by {
                    if !marks@[y] {
                        assert(before[y] is None && !marks@[y]);
                    }
                }
            }
            break ;
        }
        proof {
            lemma_count_none(before, layers@);
            let x = choose|x: int| 0 <= x < before.len() && (#[trigger] before[x]) is None && !marks@[x];
            assert(layers@[x] is Some);
            assert forall|y: int| 0 <= y < layers@.len() implies ((#[trigger] layers@[y]) matches Some(
                l,
            ) ==> l < round + 1 && forall|k: int|
                0 <= k < edges@.len() && (#[trigger] edges@[k]).1 == y ==> (
                layers@[edges@[k].0 as int] matches Some(la) && la < l)) by {
                if layers@[y] is Some {
                    assert forall|k: int| 0 <= k < edges@.len() && (#[trigger] edges@[k]).1
                        == y implies (layers@[edges@[k].0 as int] matches Some(la) && la
                        < layers@[y]->0) by {
                        let a = edges@[k].0 as int;
                        if before[y] is Some {
                            assert(before[a] is Some);
                        } else {
                            assert(!marks@[y]);
                            assert(!blocked(edges@, before, y));
                            assert(before[a] is Some);
                            assert(before[a]->0 < round);
                        }
                    }
                }
            }
        }
        round = round + 1;
    }
    let mut x: usize = 0;
    while x < count
        invariant
            x <= count,
            layers.len() == count,
            round <= count,
            layered(edges@, layers@, round as nat),
            ends_below(edges@, count as nat),
            forall|y: int| 0 <= y < layers.len() && layers@[y] is None ==> blocked(
                edges@,
                layers@,
                y,
            ),
            forall|y: int| 0 <= y < x ==> (#[trigger] layers@[y]) is Some,
        decreases count - x,
    {
        if layers[x].is_none() {
            proof {
                if acyclic(edges@) {
                    let rank = choose|rank: spec_fn(usize) -> nat| descends(edges@, rank);
                    lemma_stuck(edges@, layers@, rank, x);
                }
            }
            return false;
        }
        x = x + 1;
    }
    proof {
        let found = layers@;
        let rank = |y: usize|
            if y < count {
                (count - 1 - found[y as int]->0) as nat
            } else {
                0nat
            };
        assert forall|k: int| 0 <= k < edges@.len() implies rank((#[trigger] edges@[k]).0) > rank(
            edges@[k].1,
        ) && rank(edges@[k].0) <= usize::MAX by {
            assert(found[edges@[k].1 as int] is Some);
            assert(found[edges@[k].0 as int] is Some);
        }
        assert(descends(edges@, rank));
    }
    true
}

} // verus!
