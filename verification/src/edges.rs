//! The dependencies between recipes as edges of a graph.

use crate::digraph::incoming;
use crate::digraph::is_topological;
use crate::digraph::is_walk;
use crate::digraph::on_cycle;
use crate::justfile::JustDump;
use crate::sequences::first_index;
use crate::sequences::lemma_first_index;
use crate::sequences::lemma_first_index_is;
use vstd::prelude::*;
use vstd::set_lib::*;

verus! {

/// The dependencies of a justfile's recipes `names[0]` to `names[k - 1]` as edges between
/// positions in `names`: each leads from a dependency to the recipe that depends on it.
pub open spec fn dep_edges(dump: JustDump, names: Seq<Seq<char>>, k: int) -> Seq<(int, int)>
    decreases k,
{
    if k <= 0 {
        Seq::empty()
    } else {
        dep_edges(dump, names, k - 1) + edges_to(dump, names, k - 1)
    }
}

/// The dependencies of the recipe `names[i]` as edges.
pub open spec fn edges_to(dump: JustDump, names: Seq<Seq<char>>, i: int) -> Seq<(int, int)> {
    dump.deps_of(names[i]).map_values(|d: Seq<char>| (first_index(names, d), i))
}

pub proof fn lemma_incoming_add(a: Seq<(int, int)>, b: Seq<(int, int)>, node: int)
    ensures
        incoming(a + b, node) == incoming(b, node) + incoming(a, node),
    decreases b.len(),
{
    if b.len() == 0 {
        assert(a + b =~= a);
        assert(incoming(b, node) + incoming(a, node) =~= incoming(a, node));
    } else {
        assert((a + b).drop_last() =~= a + b.drop_last());
        lemma_incoming_add(a, b.drop_last(), node);
        assert(incoming(a + b, node) =~= incoming(b, node) + incoming(a, node));
    }
}

pub proof fn lemma_incoming_all(edges: Seq<(int, int)>, sources: Seq<int>, node: int)
    requires
        edges == sources.map_values(|s: int| (s, node)),
    ensures
        incoming(edges, node) == sources.reverse(),
    decreases edges.len(),
{
    if edges.len() > 0 {
        assert(edges.drop_last() =~= sources.drop_last().map_values(|s: int| (s, node)));
        lemma_incoming_all(edges.drop_last(), sources.drop_last(), node);
        assert(incoming(edges, node) =~= sources.reverse());
    } else {
        assert(incoming(edges, node) =~= sources.reverse());
    }
}

pub proof fn lemma_incoming_none(edges: Seq<(int, int)>, node: int)
    requires
        forall|i: int| 0 <= i < edges.len() ==> (#[trigger] edges[i]).1 != node,
    ensures
        incoming(edges, node) == Seq::<int>::empty(),
    decreases edges.len(),
{
    if edges.len() > 0 {
        lemma_incoming_none(edges.drop_last(), node);
    }
}

/// The edges that lead to a recipe come from its dependencies, the last one first.
pub proof fn lemma_incoming_deps(dump: JustDump, names: Seq<Seq<char>>, k: int, i: int)
    requires
        0 <= k <= names.len(),
        0 <= i,
    ensures
        incoming(dep_edges(dump, names, k), i) == if i < k {
            dump.deps_of(names[i]).map_values(|d: Seq<char>| first_index(names, d)).reverse()
        } else {
            Seq::empty()
        },
    decreases k,
{
    if k > 0 {
        let a = dep_edges(dump, names, k - 1);
        let b = edges_to(dump, names, k - 1);
        lemma_incoming_deps(dump, names, k - 1, i);
        lemma_incoming_add(a, b, i);
        if i == k - 1 {
            let sources = dump.deps_of(names[i]).map_values(|d: Seq<char>| first_index(names, d));
            assert(b =~= sources.map_values(|s: int| (s, i)));
            lemma_incoming_all(b, sources, i);
            assert(incoming(b, i) + incoming(a, i) =~= sources.reverse());
        } else {
            lemma_incoming_none(b, i);
            assert(incoming(b, i) + incoming(a, i) =~= incoming(a, i));
        }
    }
}

/// There is an edge between two recipes exactly where one depends on the other.
pub proof fn lemma_edge_is_dep(dump: JustDump, names: Seq<Seq<char>>, k: int, a: int, b: int)
    requires
        0 <= k <= names.len(),
        names.no_duplicates(),
        0 <= a < names.len(),
    ensures
        dep_edges(dump, names, k).contains((a, b)) <==> 0 <= b < k && dump.deps_of(
            names[b],
        ).contains(names[a]),
    decreases k,
{
    if k > 0 {
        let old = dep_edges(dump, names, k - 1);
        let new = edges_to(dump, names, k - 1);
        let all = dep_edges(dump, names, k);
        let deps = dump.deps_of(names[k - 1]);
        lemma_edge_is_dep(dump, names, k - 1, a, b);
        if old.contains((a, b)) {
            let j = choose|j: int| 0 <= j < old.len() && old[j] == (a, b);
            assert(all[j] == (a, b));
        }
        if b == k - 1 && deps.contains(names[a]) {
            let j = choose|j: int| 0 <= j < deps.len() && deps[j] == names[a];
            lemma_first_index_is(names, names[a], a);
            assert(new[j] == (a, b));
            assert(all[old.len() + j] == (a, b));
        }
        if all.contains((a, b)) {
            let j = choose|j: int| 0 <= j < all.len() && all[j] == (a, b);
            if j < old.len() {
                assert(old[j] == (a, b));
            } else {
                let m = j - old.len();
                assert(new[m] == (a, b));
                lemma_first_index(names, deps[m]);
                assert(deps[m] == names[a]);
                assert(deps.contains(names[a]));
            }
        }
    }
}

/// All edges lie between positions in `names`, where `names` holds the dependencies of its
/// recipes.
pub proof fn lemma_edges_in_range(dump: JustDump, names: Seq<Seq<char>>, k: int)
    requires
        0 <= k <= names.len(),
        is_closed(dump, names),
    ensures
        forall|j: int|
            #![trigger dep_edges(dump, names, k)[j]]
            0 <= j < dep_edges(dump, names, k).len() ==> {
                &&& 0 <= dep_edges(dump, names, k)[j].0 < names.len()
                &&& 0 <= dep_edges(dump, names, k)[j].1 < k
            },
    decreases k,
{
    if k > 0 {
        let old = dep_edges(dump, names, k - 1);
        let new = edges_to(dump, names, k - 1);
        let all = dep_edges(dump, names, k);
        let deps = dump.deps_of(names[k - 1]);
        lemma_edges_in_range(dump, names, k - 1);
        assert forall|j: int| #![trigger all[j]] 0 <= j < all.len() implies 0 <= all[j].0
            < names.len() && 0 <= all[j].1 < k by {
            if j < old.len() {
                assert(all[j] == old[j]);
            } else {
                let m = j - old.len();
                assert(all[j] == new[m]);
                assert(names.contains(names[k - 1]));
                assert(deps.contains(deps[m]));
                lemma_first_index(names, deps[m]);
            }
        }
    }
}

/// A walk without its last step is a walk.
proof fn lemma_walk_shorter(count: nat, edges: Seq<(int, int)>, walk: Seq<int>)
    requires
        is_walk(edges, walk),
        walk.len() > 0,
        forall|i: int| 0 <= i < walk.len() ==> 0 <= #[trigger] walk[i] < count,
    ensures
        is_walk(edges, walk.drop_last()),
        forall|i: int|
            0 <= i < walk.drop_last().len() ==> 0 <= #[trigger] walk.drop_last()[i] < count,
{
    let shorter = walk.drop_last();
    assert forall|i: int| 0 <= i < shorter.len() - 1 implies edges.contains(
        (#[trigger] shorter[i], shorter[i + 1]),
    ) by {
        assert(edges.contains((walk[i], walk[i + 1])));
    }
}

/// A walk along edges leads forward in a topological order.
pub proof fn lemma_walk_forward(
    count: nat,
    edges: Seq<(int, int)>,
    order: Seq<usize>,
    walk: Seq<int>,
    p: int,
    q: int,
)
    requires
        is_topological(count, edges, order),
        is_walk(edges, walk),
        walk.len() >= 2,
        forall|i: int| 0 <= i < walk.len() ==> 0 <= #[trigger] walk[i] < count,
        0 <= p < order.len(),
        0 <= q < order.len(),
        order[p] == walk.first(),
        order[q] == walk.last(),
    ensures
        p < q,
    decreases walk.len(),
{
    let n = walk.len() - 2;
    assert(edges.contains((walk[n], walk[n + 1])));
    let m = lemma_position(count, order, walk[n]);
    assert(edges.contains((order[m] as int, order[q] as int)));
    if walk.len() > 2 {
        let shorter = walk.drop_last();
        lemma_walk_shorter(count, edges, walk);
        lemma_walk_forward(count, edges, order, shorter, p, m);
    } else {
        assert(order[m] == order[p]);
    }
}

/// Every node has a position in a list of `count` distinct nodes below `count`.
pub proof fn lemma_position(count: nat, order: Seq<usize>, node: int) -> (p: int)
    requires
        order.len() == count,
        order.no_duplicates(),
        forall|i: int| 0 <= i < order.len() ==> #[trigger] order[i] < count,
        0 <= node < count,
    ensures
        0 <= p < order.len(),
        order[p] == node,
{
    let ints = order.map_values(|x: usize| x as int);
    let all = set_int_range(0, count as int);
    lemma_int_range(0, count as int);
    assert(ints.no_duplicates());
    ints.unique_seq_to_set();
    assert(ints.to_set().subset_of(all)) by {
        assert forall|x: int| ints.to_set().contains(x) implies all.contains(x) by {
            let i = choose|i: int| 0 <= i < ints.len() && ints[i] == x;
            assert(order[i] < count);
        }
    }
    lemma_subset_equality(ints.to_set(), all);
    assert(all.contains(node));
    assert(ints.contains(node));
    choose|p: int| 0 <= p < ints.len() && ints[p] == node
}

/// A graph with a topological order has no cycle.
pub proof fn lemma_topological_is_acyclic(count: nat, edges: Seq<(int, int)>, order: Seq<usize>)
    requires
        is_topological(count, edges, order),
        forall|j: int|
            0 <= j < edges.len() ==> 0 <= (#[trigger] edges[j]).0 < count && 0 <= edges[j].1
                < count,
    ensures
        forall|node: int| !#[trigger] on_cycle(edges, node),
{
    assert forall|node: int| !#[trigger] on_cycle(edges, node) by {
        if on_cycle(edges, node) {
            let walk = choose|walk: Seq<int>| #[trigger]
                is_walk(edges, walk) && walk.len() >= 2 && walk.first() == node && walk.last()
                    == node;
            lemma_walk_in_range(count, edges, walk);
            let p = lemma_position(count, order, node);
            lemma_walk_forward(count, edges, order, walk, p, p);
        }
    }
}

pub proof fn lemma_walk_in_range(count: nat, edges: Seq<(int, int)>, walk: Seq<int>)
    requires
        is_walk(edges, walk),
        walk.len() >= 2,
        forall|j: int|
            0 <= j < edges.len() ==> 0 <= (#[trigger] edges[j]).0 < count && 0 <= edges[j].1
                < count,
    ensures
        forall|i: int| 0 <= i < walk.len() ==> 0 <= #[trigger] walk[i] < count,
{
    assert forall|i: int| 0 <= i < walk.len() implies 0 <= #[trigger] walk[i] < count by {
        let k = if i < walk.len() - 1 {
            i
        } else {
            i - 1
        };
        assert(edges.contains((walk[k], walk[k + 1])));
    }
}

/// A list that holds the dependencies of its recipes.
pub open spec fn is_closed(dump: JustDump, names: Seq<Seq<char>>) -> bool {
    forall|n: Seq<char>, d: Seq<char>|
        names.contains(n) && #[trigger] dump.deps_of(n).contains(d) ==> names.contains(d)
}

/// The names along a walk over edges, backwards, are a walk along dependencies.
pub proof fn lemma_walk_to_deps(dump: JustDump, names: Seq<Seq<char>>, walk: Seq<int>)
    requires
        names.no_duplicates(),
        is_closed(dump, names),
        is_walk(dep_edges(dump, names, names.len() as int), walk),
        walk.len() >= 2,
    ensures
        0 <= walk.first() < names.len(),
        0 <= walk.last() < names.len(),
        dump.is_dep_walk(Seq::new(walk.len(), |k: int| names[walk[walk.len() - 1 - k]])),
{
    let n = names.len() as int;
    let edges = dep_edges(dump, names, n);
    let back = Seq::new(walk.len(), |k: int| names[walk[walk.len() - 1 - k]]);
    lemma_edges_in_range(dump, names, n);
    lemma_walk_in_range(names.len(), edges, walk);
    assert forall|k: int| 0 <= k < back.len() - 1 implies dump.deps_of(#[trigger] back[k]).contains(
        back[k + 1],
    ) by {
        let m = walk.len() - 2 - k;
        assert(edges.contains((walk[m], walk[m + 1])));
        lemma_edge_is_dep(dump, names, n, walk[m], walk[m + 1]);
    }
}

/// The positions along a walk over dependencies, backwards, are a walk along edges.
pub proof fn lemma_walk_to_edges(dump: JustDump, names: Seq<Seq<char>>, walk: Seq<Seq<char>>)
    requires
        names.no_duplicates(),
        is_closed(dump, names),
        dump.is_dep_walk(walk),
        walk.len() > 0,
        names.contains(walk.first()),
    ensures
        is_walk(
            dep_edges(dump, names, names.len() as int),
            Seq::new(walk.len(), |k: int| first_index(names, walk[walk.len() - 1 - k])),
        ),
{
    let n = names.len() as int;
    let edges = dep_edges(dump, names, n);
    let back = Seq::new(walk.len(), |k: int| first_index(names, walk[walk.len() - 1 - k]));
    lemma_walk_stays(dump, names, walk);
    assert forall|k: int| 0 <= k < back.len() - 1 implies edges.contains(
        (#[trigger] back[k], back[k + 1]),
    ) by {
        let m = walk.len() - 2 - k;
        assert(dump.deps_of(walk[m]).contains(walk[m + 1]));
        assert(names.contains(walk[m]) && names.contains(walk[m + 1]));
        lemma_first_index(names, walk[m]);
        lemma_first_index(names, walk[m + 1]);
        lemma_edge_is_dep(dump, names, n, back[k], back[k + 1]);
    }
}

/// A recipe is on a cycle of edges exactly where it depends on itself.
pub proof fn lemma_cycles_agree(dump: JustDump, names: Seq<Seq<char>>, i: int)
    requires
        names.no_duplicates(),
        0 <= i < names.len(),
        is_closed(dump, names),
    ensures
        on_cycle(dep_edges(dump, names, names.len() as int), i) <==> dump.on_dep_cycle(names[i]),
{
    let edges = dep_edges(dump, names, names.len() as int);
    if on_cycle(edges, i) {
        let walk = choose|walk: Seq<int>| #[trigger]
            is_walk(edges, walk) && walk.len() >= 2 && walk.first() == i && walk.last() == i;
        let back = Seq::new(walk.len(), |k: int| names[walk[walk.len() - 1 - k]]);
        lemma_walk_to_deps(dump, names, walk);
        assert(dump.is_dep_walk(back));
        assert(back.first() == names[i]);
        assert(back.last() == names[i]);
    }
    if dump.on_dep_cycle(names[i]) {
        let walk = choose|walk: Seq<Seq<char>>| #[trigger]
            dump.is_dep_walk(walk) && walk.len() >= 2 && walk.first() == names[i] && walk.last()
                == names[i];
        let back = Seq::new(walk.len(), |k: int| first_index(names, walk[walk.len() - 1 - k]));
        assert(names.contains(names[i]));
        lemma_walk_to_edges(dump, names, walk);
        lemma_first_index_is(names, names[i], i);
        assert(is_walk(edges, back));
        assert(back.first() == i);
        assert(back.last() == i);
    }
}

/// A walk along dependencies does not leave a list that holds the dependencies of its recipes.
pub proof fn lemma_walk_stays(dump: JustDump, names: Seq<Seq<char>>, walk: Seq<Seq<char>>)
    requires
        dump.is_dep_walk(walk),
        walk.len() > 0,
        names.contains(walk.first()),
        is_closed(dump, names),
    ensures
        forall|k: int| 0 <= k < walk.len() ==> names.contains(#[trigger] walk[k]),
    decreases walk.len(),
{
    if walk.len() > 1 {
        let shorter = walk.drop_last();
        assert forall|i: int| 0 <= i < shorter.len() - 1 implies dump.deps_of(
            #[trigger] shorter[i],
        ).contains(shorter[i + 1]) by {
            assert(dump.deps_of(walk[i]).contains(walk[i + 1]));
        }
        lemma_walk_stays(dump, names, shorter);
        let m = walk.len() - 2;
        assert(names.contains(shorter[m]));
        assert(dump.deps_of(walk[m]).contains(walk[m + 1]));
        assert forall|k: int| 0 <= k < walk.len() implies names.contains(#[trigger] walk[k]) by {
            if k < shorter.len() {
                assert(names.contains(shorter[k]));
            }
        }
    }
}

/// More recipes do not make fewer edges.
pub proof fn lemma_edge_count_grows(dump: JustDump, names: Seq<Seq<char>>, i: int, j: int)
    requires
        0 <= i <= j,
    ensures
        dep_edges(dump, names, i).len() <= dep_edges(dump, names, j).len(),
    decreases j,
{
    if i < j {
        lemma_edge_count_grows(dump, names, i, j - 1);
    }
}

/// The sources of the edges that lead to a node are the nodes with an edge to it.
pub proof fn lemma_incoming_sources(edges: Seq<(int, int)>, node: int)
    ensures
        forall|source: int| #[trigger]
            incoming(edges, node).contains(source) <==> edges.contains((source, node)),
    decreases edges.len(),
{
    if edges.len() > 0 {
        let t = edges.drop_last();
        let last = edges.last();
        lemma_incoming_sources(t, node);
        assert forall|source: int| #[trigger]
            incoming(edges, node).contains(source) <==> edges.contains((source, node)) by {
            let all = incoming(edges, node);
            let old = incoming(t, node);
            if all.contains(source) {
                let k = choose|k: int| 0 <= k < all.len() && all[k] == source;
                if last.1 == node && k == 0 {
                    assert(edges[edges.len() - 1] == (source, node));
                } else {
                    assert(old[if last.1 == node { k - 1 } else { k }] == source);
                    assert(old.contains(source));
                    let j = choose|j: int| 0 <= j < t.len() && t[j] == (source, node);
                    assert(edges[j] == (source, node));
                }
            }
            if edges.contains((source, node)) {
                let j = choose|j: int| 0 <= j < edges.len() && edges[j] == (source, node);
                if j < t.len() {
                    assert(t[j] == (source, node));
                    assert(t.contains((source, node)));
                    assert(old.contains(source));
                    let k = choose|k: int| 0 <= k < old.len() && old[k] == source;
                    assert(all[if last.1 == node { k + 1 } else { k }] == source);
                } else {
                    assert(all[0] == source);
                }
            }
        }
    }
}

} // verus!
