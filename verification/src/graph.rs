//! The dependency graph of a recipe.

use crate::dependency::lemma_needs_self;
use crate::dependency::lemma_needs_step;
use crate::dependency::lemma_unseen_shrinks;
use crate::dependency::search;
use crate::dependency::search_finds_needed;
use crate::dependency::Search;
use crate::digraph::add_edge;
use crate::digraph::add_node;
use crate::digraph::edge_list;
use crate::digraph::incoming;
use crate::digraph::incoming_neighbors;
use crate::digraph::is_topological;
use crate::digraph::new_graph;
use crate::digraph::node_name;
use crate::digraph::node_names;
use crate::digraph::on_cycle;
use crate::digraph::toposort;
use crate::edges::dep_edges;
use crate::edges::edges_to;
use crate::edges::is_closed;
use crate::edges::lemma_cycles_agree;
use crate::edges::lemma_edge_count_grows;
use crate::edges::lemma_edges_in_range;
use crate::edges::lemma_incoming_deps;
use crate::edges::lemma_incoming_sources;
use crate::edges::lemma_position;
use crate::edges::lemma_topological_is_acyclic;
use crate::justfile::JustDump;
use crate::justfile::Recipe;
use crate::name_map::names_of;
use crate::name_map::value_at;
use crate::name_map::NameMap;
use crate::resolve::has_text;
use crate::sequences::first_index;
use crate::sequences::lemma_first_index;
use crate::sequences::lemma_first_index_is;
use crate::text::views;
use petgraph::graph::DiGraph;
use vstd::prelude::*;

verus! {

/// Why a dependency graph cannot be built
#[derive(Debug)]
pub enum GraphError {
    /// A needed recipe is not in the justfile
    NotFound(String),
    /// A recipe depends on itself, directly or through others
    Cycle(String),
}

impl GraphError {
    /// The text of the error.
    pub open spec fn text(&self) -> Seq<char> {
        match self {
            GraphError::NotFound(name) => not_found_text(name@),
            GraphError::Cycle(name) => "Circular dependency detected involving recipe '"@ + name@
                + "'"@,
        }
    }

    /// The text of the error
    pub fn to_string(&self) -> (r: String)
        ensures
            r@ == self.text(),
    {
        match self {
            GraphError::NotFound(name) => not_found_message(name.as_str()),
            GraphError::Cycle(name) => {
                let mut r: String = "Circular dependency detected involving recipe '".to_owned();
                r.append(name.as_str());
                r.append("'");
                r
            },
        }
    }
}

/// What is said of a recipe that is not in the justfile.
pub open spec fn not_found_text(name: Seq<char>) -> Seq<char> {
    "Recipe '"@ + name + "' not found"@
}

/// What is said of a recipe that is not in the justfile
pub fn not_found_message(name: &str) -> (r: String)
    ensures
        r@ == not_found_text(name@),
{
    let mut r: String = "Recipe '".to_owned();
    r.append(name);
    r.append("' not found");
    r
}

/// A dependency graph for recipes
#[derive(Debug)]
pub struct RecipeGraph {
    /// The underlying directed graph
    graph: DiGraph<String, ()>,
    /// Map from recipe name to node index
    node_indices: NameMap<usize>,
}

/// Whether the recipes that `target` needs, and their dependencies, can be numbered with 32 bits.
pub open spec fn fits(dump: JustDump, target: Seq<char>) -> bool {
    match search(dump, Seq::empty(), seq![target]) {
        Search::Found(all) => {
            &&& all.len() <= u32::MAX
            &&& dep_edges(dump, all, all.len() as int).len() <= u32::MAX
        },
        Search::Missing(_) => true,
    }
}

impl RecipeGraph {
    /// The names of the recipes in the graph.
    pub closed spec fn names(&self) -> Seq<Seq<char>> {
        node_names(self.graph)
    }

    /// The immediate dependencies of a recipe in the graph.
    pub closed spec fn deps_of(&self, name: Seq<char>) -> Seq<Seq<char>> {
        if self.names().contains(name) {
            incoming(edge_list(self.graph), first_index(self.names(), name)).map_values(
                |i: int| self.names()[i],
            )
        } else {
            Seq::empty()
        }
    }

    /// Names are not repeated, each has its index, edges lie between nodes, and there is no
    /// cycle.
    #[verifier::type_invariant]
    spec fn inv(self) -> bool {
        &&& self.names().no_duplicates()
        &&& self.node_indices.names() == self.names()
        &&& forall|i: int| 0 <= i < self.names().len() ==> #[trigger] self.node_indices.values()[i]
            == i
        &&& forall|j: int|
            0 <= j < edge_list(self.graph).len() ==> 0 <= (#[trigger] edge_list(self.graph)[j]).0
                < self.names().len() && 0 <= edge_list(self.graph)[j].1 < self.names().len()
        &&& forall|node: int| !#[trigger] on_cycle(edge_list(self.graph), node)
    }

    /// The graph holds exactly the recipes that `target` needs, each once, with their
    /// dependencies, the last one first.
    pub open spec fn is_graph_of(&self, dump: JustDump, target: Seq<char>) -> bool {
        &&& self.names().no_duplicates()
        &&& forall|n: Seq<char>| #[trigger] self.names().contains(n) <==> dump.needs(target, n)
        &&& forall|n: Seq<char>|
            dump.needs(target, n) ==> #[trigger] self.deps_of(n) == dump.deps_of(n).reverse()
    }

    /// A list of all recipes in the graph, each once and after its dependencies.
    pub open spec fn is_order(&self, order: Seq<Seq<char>>) -> bool {
        &&& order.len() == self.names().len()
        &&& order.no_duplicates()
        &&& forall|n: Seq<char>| #[trigger] order.contains(n) <==> self.names().contains(n)
        &&& forall|i: int, j: int|
            0 <= i < order.len() && 0 <= j < order.len() && self.deps_of(
                #[trigger] order[j],
            ).contains(#[trigger] order[i]) ==> i < j
    }

    /// The dependencies of a recipe in the graph are in the graph, and an edge leads from each
    /// of them to the recipe.
    proof fn lemma_deps(self)
        requires
            self.inv(),
        ensures
            forall|n: Seq<char>, d: Seq<char>| #[trigger]
                self.deps_of(n).contains(d) ==> self.names().contains(n) && self.names().contains(
                    d,
                ) && edge_list(self.graph).contains(
                    (first_index(self.names(), d), first_index(self.names(), n)),
                ),
    {
        let names = self.names();
        let edges = edge_list(self.graph);
        assert forall|n: Seq<char>, d: Seq<char>| #[trigger]
            self.deps_of(n).contains(d) implies names.contains(n) && names.contains(d)
            && edges.contains((first_index(names, d), first_index(names, n))) by {
            let k = first_index(names, n);
            let sources = incoming(edges, k);
            let j = choose|j: int| 0 <= j < self.deps_of(n).len() && self.deps_of(n)[j] == d;
            lemma_incoming_sources(edges, k);
            assert(sources.contains(sources[j]));
            assert(edges.contains((sources[j], k)));
            assert(names[sources[j]] == d);
            lemma_first_index_is(names, d, sources[j]);
        }
    }

    /// The names along a topological order of the nodes are an order of the recipes.
    proof fn lemma_order(self, sorted: Seq<usize>, order: Seq<Seq<char>>)
        requires
            self.inv(),
            is_topological(self.names().len(), edge_list(self.graph), sorted),
            order == sorted.map_values(|i: usize| self.names()[i as int]),
        ensures
            self.is_order(order),
    {
        let names = self.names();
        self.lemma_deps();
        assert forall|n: Seq<char>| #[trigger] order.contains(n) <==> names.contains(n) by {
            if order.contains(n) {
                let i = choose|i: int| 0 <= i < order.len() && order[i] == n;
                assert(names[sorted[i] as int] == n);
            }
            if names.contains(n) {
                let i = choose|i: int| 0 <= i < names.len() && names[i] == n;
                let p = lemma_position(names.len(), sorted, i);
                assert(order[p] == n);
            }
        }
        assert forall|i: int, j: int|
            0 <= i < order.len() && 0 <= j < order.len() && self.deps_of(
                #[trigger] order[j],
            ).contains(#[trigger] order[i]) implies i < j by {
            assert(names[sorted[i] as int] == order[i]);
            assert(names[sorted[j] as int] == order[j]);
            lemma_first_index_is(names, order[i], sorted[i] as int);
            lemma_first_index_is(names, order[j], sorted[j] as int);
        }
    }

    /// Collect all recipes needed to run the target (target + transitive deps)
    fn collect_dependencies(dump: &JustDump, target: &str) -> (r: Result<Vec<String>, GraphError>)
        ensures
            match (r, search(*dump, Seq::empty(), seq![target@])) {
                (Ok(all), Search::Found(names)) => views(all@) == names,
                (Err(GraphError::NotFound(name)), Search::Missing(missing)) => name@ == missing,
                _ => false,
            },
    {
        let mut needed: Vec<String> = Vec::new();
        let mut stack: Vec<String> = Vec::new();
        stack.push(target.to_owned());
        assert(views(needed@) =~= Seq::<Seq<char>>::empty());
        assert(views(stack@) =~= seq![target@]);
        while stack.len() > 0
            invariant
                search(*dump, views(needed@), views(stack@)) == search(
                    *dump,
                    Seq::empty(),
                    seq![target@],
                ),
            decreases dump.unseen(views(needed@)), stack@.len(),
        {
            let ghost seen = views(needed@);
            let ghost before = views(stack@);
            let name: String = stack.pop().unwrap();
            let ghost rest = views(stack@);
            assert(rest =~= before.drop_last());
            assert(name@ == before.last());
            if has_text(&needed, name.as_str()) {
                continue ;
            }
            match dump.get_recipe(name.as_str()) {
                None => {
                    return Err(GraphError::NotFound(name));
                },
                Some(recipe) => {
                    proof {
                        lemma_unseen_shrinks(*dump, seen, name@);
                    }
                    let ghost more = seen.push(name@);
                    needed.push(name);
                    assert(views(needed@) =~= more);
                    let ghost deps = recipe.dep_names();
                    let ghost pred = |d: Seq<char>| !more.contains(d);
                    assert(deps.take(0) =~= Seq::<Seq<char>>::empty());
                    assert(rest + deps.take(0).filter(pred) =~= rest) by {
                        reveal(Seq::filter);
                    }
                    for i in 0..recipe.dependencies.len()
                        invariant
                            deps == recipe.dep_names(),
                            pred == (|d: Seq<char>| !more.contains(d)),
                            views(needed@) == more,
                            views(stack@) == rest + deps.take(i as int).filter(pred),
                    {
                        reveal(Seq::filter);
                        let dep: &String = &recipe.dependencies[i].recipe;
                        assert(deps.take(i + 1).drop_last() =~= deps.take(i as int));
                        assert(deps[i as int] == dep@);
                        let ghost s = views(stack@);
                        if !has_text(&needed, dep.as_str()) {
                            stack.push(dep.clone());
                            assert(views(stack@) =~= s.push(dep@));
                            assert(views(stack@) =~= rest + deps.take(i + 1).filter(pred));
                        }
                    }
                    assert(deps.take(deps.len() as int) =~= deps);
                },
            }
        }
        assert(views(stack@) =~= Seq::<Seq<char>>::empty());
        Ok(needed)
    }

    /// The number of edges that the dependencies of recipes make, or `None` where it is more
    /// than 32 bits can number
    fn count_edges(dump: &JustDump, names: &Vec<String>) -> (r: Option<u32>)
        ensures
            match r {
                Some(n) => n == dep_edges(*dump, views(names@), names@.len() as int).len(),
                None => dep_edges(*dump, views(names@), names@.len() as int).len() > u32::MAX,
            },
    {
        let ghost all = views(names@);
        let mut count: u32 = 0;
        for i in 0..names.len()
            invariant
                all == views(names@),
                count == dep_edges(*dump, all, i as int).len(),
        {
            assert(all[i as int] == names@[i as int]@);
            assert(edges_to(*dump, all, i as int).len() == dump.deps_of(all[i as int]).len());
            if let Some(recipe) = dump.get_recipe(names[i].as_str()) {
                let n: usize = recipe.dependencies.len();
                assert(recipe.dep_names().len() == n);
                let room: u32 = u32::MAX - count;
                if n > room as usize {
                    proof {
                        lemma_edge_count_grows(*dump, all, i + 1, names@.len() as int);
                    }
                    return None;
                }
                count = count + n as u32;
            }
        }
        Some(count)
    }

    /// Check whether the graph of a target can be built: its nodes and edges are numbered with
    /// 32 bits
    pub fn check_fits(dump: &JustDump, target: &str) -> (r: bool)
        ensures
            r == fits(*dump, target@),
    {
        match Self::collect_dependencies(dump, target) {
            Ok(names) => {
                assert(views(names@).len() == names@.len());
                names.len() <= u32::MAX as usize && Self::count_edges(dump, &names).is_some()
            },
            Err(_) => true,
        }
    }

    /// Build a dependency graph from a parsed justfile
    ///
    /// Only includes the target recipe and its transitive dependencies.
    pub fn build(dump: &JustDump, target: &str) -> (r: Result<Self, GraphError>)
        requires
            fits(*dump, target@),
        ensures
            match r {
                Ok(g) => {
                    &&& dump.is_complete(target@)
                    &&& forall|n: Seq<char>| #[trigger]
                        dump.needs(target@, n) ==> !dump.on_dep_cycle(n)
                    &&& search(*dump, Seq::empty(), seq![target@]) == Search::Found(g.names())
                    &&& g.is_graph_of(*dump, target@)
                },
                Err(GraphError::NotFound(name)) => {
                    &&& search(*dump, Seq::empty(), seq![target@]) == Search::Missing(name@)
                    &&& dump.needs(target@, name@)
                    &&& !dump.has(name@)
                },
                Err(GraphError::Cycle(name)) => {
                    &&& dump.is_complete(target@)
                    &&& dump.needs(target@, name@)
                    &&& dump.on_dep_cycle(name@)
                },
            },
    {
        proof {
            search_finds_needed(*dump, target@);
        }
        // First, collect all recipes we need (target + transitive deps)
        let needed: Vec<String> = match Self::collect_dependencies(dump, target) {
            Ok(needed) => needed,
            Err(e) => {
                return Err(e);
            },
        };
        let ghost names = views(needed@);
        assert(names.len() == needed@.len());

        // Add nodes for all needed recipes
        let mut graph: DiGraph<String, ()> = new_graph();
        let mut node_indices: NameMap<usize> = NameMap::new();
        for i in 0..needed.len()
            invariant
                names == views(needed@),
                names.no_duplicates(),
                names.len() <= u32::MAX,
                node_names(graph) == names.take(i as int),
                edge_list(graph) == Seq::<(int, int)>::empty(),
                node_indices.names() == names.take(i as int),
                forall|j: int| 0 <= j < i ==> #[trigger] node_indices.values()[j] == j,
        {
            assert(names[i as int] == needed@[i as int]@);
            assert(names.take(i + 1) =~= names.take(i as int).push(names[i as int]));
            let idx: usize = add_node(&mut graph, needed[i].clone());
            let ghost before = node_indices;
            assert(!before.names().contains(names[i as int]));
            node_indices.insert(needed[i].clone(), idx);
            assert(node_indices.names() =~= names.take(i + 1));
            assert forall|j: int| 0 <= j < i + 1 implies #[trigger] node_indices.values()[j]
                == j by {
                if j < i {
                    assert(node_indices.values()[j] == before.values()[j]);
                }
            }
        }
        assert(names.take(names.len() as int) =~= names);

        // Add edges for dependencies
        // Edge direction: dependency -> dependent (so toposort gives us execution order)
        proof {
            assert forall|n: Seq<char>, d: Seq<char>|
                names.contains(n) && #[trigger] dump.deps_of(n).contains(d) implies names.contains(
                d,
            ) by {
                lemma_needs_step(*dump, target@, n, d);
            }
            assert(is_closed(*dump, names));
        }
        let ghost total = names.len() as int;
        for i in 0..needed.len()
            invariant
                names == views(needed@),
                total == names.len(),
                names.no_duplicates(),
                is_closed(*dump, names),
                dep_edges(*dump, names, total).len() <= u32::MAX,
                node_names(graph) == names,
                node_indices.names() == names,
                forall|j: int| 0 <= j < total ==> #[trigger] node_indices.values()[j] == j,
                edge_list(graph) == dep_edges(*dump, names, i as int),
        {
            assert(names[i as int] == needed@[i as int]@);
            assert(names.contains(names[i as int]));
            if let Some(recipe) = dump.get_recipe(needed[i].as_str()) {
                let ghost deps = dump.deps_of(names[i as int]);
                let ghost old_edges = edge_list(graph);
                let ghost new_edges = edges_to(*dump, names, i as int);
                assert(deps == recipe.dep_names());
                proof {
                    lemma_edge_count_grows(*dump, names, i + 1, total);
                }
                assert(old_edges + new_edges.take(0) =~= old_edges);
                for j in 0..recipe.dependencies.len()
                    invariant
                        i < names.len(),
                        deps == recipe.dep_names(),
                        deps == dump.deps_of(names[i as int]),
                        names.contains(names[i as int]),
                        is_closed(*dump, names),
                        names.no_duplicates(),
                        node_names(graph) == names,
                        node_indices.names() == names,
                        total == names.len(),
                        forall|j: int| 0 <= j < total ==> #[trigger] node_indices.values()[j] == j,
                        new_edges == edges_to(*dump, names, i as int),
                        old_edges.len() + new_edges.len() <= u32::MAX,
                        edge_list(graph) == old_edges + new_edges.take(j as int),
                {
                    let dep: &String = &recipe.dependencies[j].recipe;
                    assert(deps[j as int] == dep@);
                    assert(deps.contains(deps[j as int]));
                    proof {
                        lemma_first_index(names, dep@);
                    }
                    if let Some(idx) = node_indices.get(dep.as_str()) {
                        assert(node_indices.values()[first_index(names, dep@)] == *idx);
                        add_edge(&mut graph, *idx, i);
                    }
                    assert(new_edges.take(j + 1) =~= new_edges.take(j as int).push(
                        new_edges[j as int],
                    ));
                    assert(edge_list(graph) =~= old_edges + new_edges.take(j + 1));
                }
                assert(new_edges.take(new_edges.len() as int) =~= new_edges);
            } else {
                assert(edges_to(*dump, names, i as int) =~= Seq::<(int, int)>::empty());
                assert(edge_list(graph) =~= dep_edges(*dump, names, i + 1));
            }
        }
        proof {
            lemma_edges_in_range(*dump, names, total);
        }
        // Check for cycles
        match toposort(&graph) {
            Err(node) => {
                let name: String = node_name(&graph, node).clone();
                proof {
                    lemma_cycles_agree(*dump, names, node as int);
                    assert(names.contains(names[node as int]));
                }
                Err(GraphError::Cycle(name))
            },
            Ok(order) => {
                proof {
                    lemma_topological_is_acyclic(names.len(), edge_list(graph), order@);
                }
                let g: RecipeGraph = RecipeGraph { graph, node_indices };
                proof {
                    assert forall|n: Seq<char>| #[trigger]
                        dump.needs(target@, n) implies !dump.on_dep_cycle(n) by {
                        assert(names.contains(n));
                        lemma_first_index(names, n);
                        lemma_cycles_agree(*dump, names, first_index(names, n));
                    }
                    assert forall|n: Seq<char>| dump.needs(target@, n) implies #[trigger] g.deps_of(
                        n,
                    ) == dump.deps_of(n).reverse() by {
                        assert(names.contains(n));
                        lemma_first_index(names, n);
                        let k = first_index(names, n);
                        let deps = dump.deps_of(n);
                        lemma_incoming_deps(*dump, names, total, k);
                        assert forall|j: int| 0 <= j < deps.len() implies names[first_index(
                            names,
                            #[trigger] deps[j],
                        )] == deps[j] by {
                            assert(deps.contains(deps[j]));
                            assert(names.contains(deps[j]));
                            lemma_first_index(names, deps[j]);
                        }
                        assert(g.deps_of(n) =~= deps.reverse());
                    }
                }
                Ok(g)
            },
        }
    }

    /// Get all recipes in a valid execution order (dependencies before dependents)
    pub fn execution_order(&self) -> (r: Result<Vec<String>, GraphError>)
        ensures
            r matches Ok(order) && self.is_order(views(order@)),
            forall|n: Seq<char>, d: Seq<char>| #[trigger]
                self.deps_of(n).contains(d) ==> self.names().contains(n) && self.names().contains(
                    d,
                ),
    {
        proof {
            use_type_invariant(self);
        }
        let ghost names = self.names();
        let ghost edges = edge_list(self.graph);
        proof {
            self.lemma_deps();
        }
        match toposort(&self.graph) {
            Err(node) => Err(GraphError::Cycle(node_name(&self.graph, node).clone())),
            Ok(sorted) => {
                let mut order: Vec<String> = Vec::new();
                for i in 0..sorted.len()
                    invariant
                        names == node_names(self.graph),
                        is_topological(names.len(), edges, sorted@),
                        order@.len() == i,
                        forall|j: int|
                            0 <= j < i ==> (#[trigger] order@[j])@ == names[sorted@[j] as int],
                {
                    order.push(node_name(&self.graph, sorted[i]).clone());
                }
                proof {
                    assert(views(order@) =~= sorted@.map_values(
                        |i: usize| self.names()[i as int],
                    ));
                    self.lemma_order(sorted@, views(order@));
                }
                Ok(order)
            },
        }
    }

    /// Get the immediate dependencies of a recipe
    pub fn dependencies_of(&self, recipe: &str) -> (r: Vec<String>)
        ensures
            views(r@) == self.deps_of(recipe@),
            !self.names().contains(recipe@) ==> r@.len() == 0,
    {
        proof {
            use_type_invariant(self);
            lemma_first_index(self.names(), recipe@);
        }
        let mut r: Vec<String> = Vec::new();
        if let Some(idx) = self.node_indices.get(recipe) {
            assert(self.node_indices.values()[first_index(self.names(), recipe@)] == *idx);
            let sources: Vec<usize> = incoming_neighbors(&self.graph, *idx);
            let ghost ints = incoming(edge_list(self.graph), *idx as int);
            proof {
                lemma_incoming_sources(edge_list(self.graph), *idx as int);
            }
            assert(ints == sources@.map_values(|i: usize| i as int));
            for i in 0..sources.len()
                invariant
                    self.inv(),
                    ints == sources@.map_values(|i: usize| i as int),
                    forall|s: int| #[trigger]
                        ints.contains(s) ==> edge_list(self.graph).contains((s, *idx as int)),
                    r@.len() == i,
                    forall|j: int|
                        0 <= j < i ==> (#[trigger] r@[j])@ == self.names()[ints[j]],
            {
                assert(ints[i as int] == sources@[i as int]);
                assert(ints.contains(ints[i as int]));
                r.push(node_name(&self.graph, sources[i]).clone());
            }
            assert(views(r@) =~= self.deps_of(recipe@));
        }
        r
    }
}

/// A walk along dependencies leads backward in an order of the recipes.
proof fn lemma_walk_backward(
    dump: JustDump,
    target: Seq<char>,
    g: RecipeGraph,
    order: Seq<Seq<char>>,
    walk: Seq<Seq<char>>,
    i: int,
    j: int,
)
    requires
        g.is_graph_of(dump, target),
        g.is_order(order),
        dump.is_dep_walk(walk),
        walk.len() >= 2,
        0 <= i < order.len(),
        0 <= j < order.len(),
        order[j] == walk.first(),
        order[i] == walk.last(),
    ensures
        i < j,
    decreases walk.len(),
{
    let first = walk[0];
    let second = walk[1];
    let deps = dump.deps_of(first);
    assert(deps.contains(second));
    assert(order.contains(first));
    assert(g.names().contains(first));
    lemma_needs_step(dump, target, first, second);
    assert(g.names().contains(second));
    assert(order.contains(second));
    let k = choose|k: int| 0 <= k < order.len() && order[k] == second;
    let m = choose|m: int| 0 <= m < deps.len() && deps[m] == second;
    assert(g.deps_of(first)[deps.len() - 1 - m] == second);
    assert(g.deps_of(order[j]).contains(order[k]));
    assert(k < j);
    if walk.len() > 2 {
        let rest = walk.drop_first();
        assert forall|x: int| 0 <= x < rest.len() - 1 implies dump.deps_of(
            #[trigger] rest[x],
        ).contains(rest[x + 1]) by {
            assert(dump.deps_of(walk[x + 1]).contains(walk[x + 2]));
        }
        lemma_walk_backward(dump, target, g, order, rest, i, k);
    } else {
        assert(order[i] == order[k]);
    }
}

/// In an execution order every transitive dependency of a recipe comes before it.
pub proof fn dependencies_run_first(
    dump: JustDump,
    target: Seq<char>,
    g: RecipeGraph,
    order: Seq<Seq<char>>,
    i: int,
    j: int,
)
    requires
        g.is_graph_of(dump, target),
        g.is_order(order),
        0 <= i < order.len(),
        0 <= j < order.len(),
        i != j,
        dump.needs(order[j], order[i]),
    ensures
        i < j,
{
    let walk = choose|walk: Seq<Seq<char>>| #[trigger]
        dump.is_dep_walk(walk) && walk.len() > 0 && walk.first() == order[j] && walk.last()
            == order[i];
    if walk.len() == 1 {
        assert(order[i] == order[j]);
    } else {
        lemma_walk_backward(dump, target, g, order, walk, i, j);
    }
}

/// In an execution order the target comes last.
pub proof fn target_runs_last(
    dump: JustDump,
    target: Seq<char>,
    g: RecipeGraph,
    order: Seq<Seq<char>>,
)
    requires
        g.is_graph_of(dump, target),
        g.is_order(order),
    ensures
        order.len() > 0,
        order.last() == target,
{
    lemma_needs_self(dump, target);
    assert(g.names().contains(target));
    assert(order.contains(target));
    let j = choose|j: int| 0 <= j < order.len() && order[j] == target;
    let i = order.len() - 1;
    assert(order.contains(order[i]));
    assert(g.names().contains(order[i]));
    if i != j {
        dependencies_run_first(dump, target, g, order, i, j);
    }
}

/// The text of an error holds the name of the recipe between fixed words.
pub proof fn errors_name_the_recipe(name: String)
    ensures
        GraphError::NotFound(name).text() == "Recipe '"@ + name@ + "' not found"@,
        GraphError::Cycle(name).text() == "Circular dependency detected involving recipe '"@
            + name@ + "'"@,
{
}

/// The graph of a target gives each needed recipe exactly the dependencies that stand in it, the
/// last one first.
pub proof fn graph_has_the_dependencies(
    dump: JustDump,
    target: Seq<char>,
    g: RecipeGraph,
    name: Seq<char>,
)
    requires
        g.is_graph_of(dump, target),
        dump.needs(target, name),
    ensures
        match dump.recipes.at(name) {
            Some(r) => {
                let n = r.dependencies@.len();
                &&& g.deps_of(name).len() == n
                &&& forall|j: int|
                    0 <= j < n ==> #[trigger] g.deps_of(name)[j] == r.dependencies@[n - 1
                        - j].recipe@
            },
            None => g.deps_of(name).len() == 0,
        },
{
}

/// An execution order lists what the target needs, and nothing else, each recipe once, and
/// behind everything that stands in it as a dependency.
pub proof fn order_lists_what_is_needed(
    dump: JustDump,
    target: Seq<char>,
    g: RecipeGraph,
    order: Seq<Seq<char>>,
)
    requires
        g.is_graph_of(dump, target),
        g.is_order(order),
    ensures
        order.no_duplicates(),
        forall|n: Seq<char>| #[trigger] order.contains(n) <==> dump.needs(target, n),
        forall|i: int, j: int|
            0 <= i < order.len() && 0 <= j < order.len() && dump.deps_of(
                #[trigger] order[j],
            ).contains(#[trigger] order[i]) ==> i < j,
{
    assert forall|i: int, j: int|
        0 <= i < order.len() && 0 <= j < order.len() && dump.deps_of(
            #[trigger] order[j],
        ).contains(#[trigger] order[i]) implies i < j by {
        let deps = dump.deps_of(order[j]);
        assert(order.contains(order[j]));
        assert(g.names().contains(order[j]));
        let m = choose|m: int| 0 <= m < deps.len() && deps[m] == order[i];
        assert(g.deps_of(order[j])[deps.len() - 1 - m] == order[i]);
    }
}

/// The number of all dependencies of some recipes.
pub open spec fn total_deps(entries: Seq<(String, Recipe)>) -> nat
    decreases entries.len(),
{
    if entries.len() == 0 {
        0
    } else {
        total_deps(entries.drop_last()) + entries.last().1.dependencies@.len()
    }
}

/// The number of dependencies that a list of entries gives to some names.
spec fn deps_given(entries: Seq<(String, Recipe)>, names: Seq<Seq<char>>) -> nat
    decreases names.len(),
{
    if names.len() == 0 {
        0
    } else {
        deps_given(entries, names.drop_last()) + match value_at(entries, names.last()) {
            Some(r) => r.dependencies@.len(),
            None => 0,
        }
    }
}

proof fn lemma_deps_given_remove(
    entries: Seq<(String, Recipe)>,
    names: Seq<Seq<char>>,
    p: int,
)
    requires
        0 <= p < names.len(),
    ensures
        deps_given(entries, names) == deps_given(entries, names.remove(p)) + match value_at(
            entries,
            names[p],
        ) {
            Some(r) => r.dependencies@.len(),
            None => 0,
        },
    decreases names.len(),
{
    if p == names.len() - 1 {
        assert(names.remove(p) =~= names.drop_last());
    } else {
        lemma_deps_given_remove(entries, names.drop_last(), p);
        assert(names.remove(p).drop_last() =~= names.drop_last().remove(p));
        assert(names.remove(p).last() == names.last());
    }
}

proof fn lemma_deps_given_front(entries: Seq<(String, Recipe)>, names: Seq<Seq<char>>)
    requires
        entries.len() > 0,
        forall|i: int| 0 <= i < names.len() ==> names_of(entries.drop_last()).contains(
            #[trigger] names[i],
        ),
    ensures
        deps_given(entries, names) == deps_given(entries.drop_last(), names),
    decreases names.len(),
{
    if names.len() > 0 {
        let front = entries.drop_last();
        let name = names.last();
        let t = names.drop_last();
        assert forall|i: int| 0 <= i < t.len() implies names_of(front).contains(#[trigger] t[i]) by {
            assert(t[i] == names[i]);
        }
        lemma_deps_given_front(entries, t);
        assert(names_of(front).contains(names[names.len() - 1]));
        lemma_first_index(names_of(front), name);
        let k = first_index(names_of(front), name);
        assert(names_of(entries)[k] == name);
        assert forall|j: int| 0 <= j < k implies names_of(entries)[j] != name by {
            assert(names_of(front)[j] == names_of(entries)[j]);
        }
        lemma_first_index_is(names_of(entries), name, k);
        assert(names_of(entries).contains(name));
    }
}

/// Different names are given no more dependencies than there are.
proof fn lemma_deps_given(entries: Seq<(String, Recipe)>, names: Seq<Seq<char>>)
    requires
        names_of(entries).no_duplicates(),
        names.no_duplicates(),
        forall|i: int| 0 <= i < names.len() ==> names_of(entries).contains(#[trigger] names[i]),
    ensures
        deps_given(entries, names) <= total_deps(entries),
        names.len() <= entries.len(),
    decreases entries.len(),
{
    if entries.len() == 0 {
        if names.len() > 0 {
            assert(names_of(entries).contains(names[0]));
        }
    } else {
        let front = entries.drop_last();
        let last = entries.last().0@;
        let end = entries.len() - 1;
        assert(names_of(entries)[end] == last);
        assert forall|i: int, j: int|
            0 <= i < front.len() && 0 <= j < front.len() && i != j implies names_of(front)[i]
            != names_of(front)[j] by {
            assert(names_of(front)[i] == names_of(entries)[i]);
            assert(names_of(front)[j] == names_of(entries)[j]);
        }
        assert forall|n: Seq<char>| #[trigger] names_of(entries).contains(n) && n != last implies
            names_of(front).contains(n) by {
            let k = choose|k: int| 0 <= k < entries.len() && names_of(entries)[k] == n;
            assert(names_of(front)[k] == n);
        }
        let rest = if names.contains(last) {
            let p = choose|p: int| 0 <= p < names.len() && names[p] == last;
            names.remove(p)
        } else {
            names
        };
        if names.contains(last) {
            let p = choose|p: int| 0 <= p < names.len() && names[p] == last;
            lemma_deps_given_remove(entries, names, p);
            lemma_first_index_is(names_of(entries), last, end);
            assert(names_of(entries).contains(last));
            assert forall|i: int| 0 <= i < rest.len() implies names_of(front).contains(
                #[trigger] rest[i],
            ) by {
                let k = if i < p {
                    i
                } else {
                    i + 1
                };
                assert(rest[i] == names[k]);
                assert(names_of(entries).contains(names[k]));
            }
            assert(rest.no_duplicates());
        } else {
            assert forall|i: int| 0 <= i < rest.len() implies names_of(front).contains(
                #[trigger] rest[i],
            ) by {
                assert(names.contains(names[i]));
                assert(names_of(entries).contains(names[i]));
            }
        }
        lemma_deps_given_front(entries, rest);
        lemma_deps_given(front, rest);
    }
}

proof fn lemma_edge_number(dump: JustDump, names: Seq<Seq<char>>, k: int)
    requires
        0 <= k <= names.len(),
    ensures
        dep_edges(dump, names, k).len() == deps_given(dump.recipes.entries(), names.take(k)),
    decreases k,
{
    if k > 0 {
        lemma_edge_number(dump, names, k - 1);
        assert(names.take(k).drop_last() =~= names.take(k - 1));
        assert(names.take(k).last() == names[k - 1]);
    }
}

/// A graph can be built of any justfile whose recipes and dependencies can be numbered with 32
/// bits.
pub proof fn ordinary_justfiles_fit(dump: JustDump, target: Seq<char>)
    requires
        dump.recipes.wf(),
        dump.recipes.entries().len() <= u32::MAX,
        total_deps(dump.recipes.entries()) <= u32::MAX,
    ensures
        fits(dump, target),
{
    search_finds_needed(dump, target);
    if let Search::Found(all) = search(dump, Seq::empty(), seq![target]) {
        assert forall|i: int| 0 <= i < all.len() implies names_of(dump.recipes.entries()).contains(
            #[trigger] all[i],
        ) by {
            assert(all.contains(all[i]));
            assert(dump.needs(target, all[i]));
            assert(dump.has(all[i]));
        }
        lemma_deps_given(dump.recipes.entries(), all);
        lemma_edge_number(dump, all, all.len() as int);
        assert(all.take(all.len() as int) =~= all);
    }
}

} // verus!
