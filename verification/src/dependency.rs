//! The dependency relation between recipes.

use crate::justfile::JustDump;
use crate::sequences::lemma_filter_elements;
use crate::sequences::lemma_filter_shrinks;
use vstd::prelude::*;

verus! {

impl JustDump {
    /// Whether the justfile has a recipe of that name.
    pub open spec fn has(&self, name: Seq<char>) -> bool {
        self.recipes.at(name) is Some
    }

    /// The names of the recipes that a recipe depends on.
    pub open spec fn deps_of(&self, name: Seq<char>) -> Seq<Seq<char>> {
        match self.recipes.at(name) {
            Some(r) => r.dep_names(),
            None => Seq::empty(),
        }
    }

    /// A walk along dependencies: each recipe depends on the next one.
    pub open spec fn is_dep_walk(&self, walk: Seq<Seq<char>>) -> bool {
        forall|i: int|
            0 <= i < walk.len() - 1 ==> self.deps_of(#[trigger] walk[i]).contains(walk[i + 1])
    }

    /// Whether `name` is `target` or a transitive dependency of it.
    pub open spec fn needs(&self, target: Seq<char>, name: Seq<char>) -> bool {
        exists|walk: Seq<Seq<char>>| #[trigger]
            self.is_dep_walk(walk) && walk.len() > 0 && walk.first() == target && walk.last()
                == name
    }

    /// Whether a recipe depends on itself, directly or through others.
    pub open spec fn on_dep_cycle(&self, name: Seq<char>) -> bool {
        exists|walk: Seq<Seq<char>>| #[trigger]
            self.is_dep_walk(walk) && walk.len() >= 2 && walk.first() == name && walk.last()
                == name
    }

    /// Whether the justfile has `target` and all its transitive dependencies.
    pub open spec fn is_complete(&self, target: Seq<char>) -> bool {
        forall|name: Seq<char>| #[trigger] self.needs(target, name) ==> self.has(name)
    }

    /// The number of recipes that are not among `seen`.
    pub open spec fn unseen(&self, seen: Seq<Seq<char>>) -> nat {
        self.recipes.names().filter(|n: Seq<char>| !seen.contains(n)).len()
    }
}

/// What a search for transitive dependencies comes to.
pub enum Search {
    /// All recipes that were searched for, in the order in which they were found
    Found(Seq<Seq<char>>),
    /// A recipe that the justfile does not have
    Missing(Seq<char>),
}

/// The search for transitive dependencies in depth, the last dependency first: `seen` lists the
/// recipes found so far, and `stack` those to be searched, the next one last.
pub open spec fn search(dump: JustDump, seen: Seq<Seq<char>>, stack: Seq<Seq<char>>) -> Search
    decreases dump.unseen(seen), stack.len(),
{
    if stack.len() == 0 {
        Search::Found(seen)
    } else {
        let name = stack.last();
        let rest = stack.drop_last();
        let more = seen.push(name);
        if seen.contains(name) {
            search(dump, seen, rest)
        } else if !dump.has(name) {
            Search::Missing(name)
        } else {
            proof {
                lemma_unseen_shrinks(dump, seen, name);
            }
            search(
                dump,
                more,
                rest + dump.deps_of(name).filter(|d: Seq<char>| !more.contains(d)),
            )
        }
    }
}

/// Finding a recipe leaves fewer to be found.
pub proof fn lemma_unseen_shrinks(dump: JustDump, seen: Seq<Seq<char>>, name: Seq<char>)
    requires
        dump.has(name),
        !seen.contains(name),
    ensures
        dump.unseen(seen.push(name)) < dump.unseen(seen),
{
    let more = seen.push(name);
    let wide = |n: Seq<char>| !seen.contains(n);
    let narrow = |n: Seq<char>| !more.contains(n);
    assert(more[seen.len() as int] == name);
    assert forall|n: Seq<char>| #[trigger] narrow(n) implies wide(n) by {
        if seen.contains(n) {
            let k = choose|k: int| 0 <= k < seen.len() && seen[k] == n;
            assert(more[k] == n);
        }
    }
    lemma_filter_shrinks(dump.recipes.names(), wide, narrow, name);
}

/// `target` needs itself.
pub proof fn lemma_needs_self(dump: JustDump, target: Seq<char>)
    ensures
        dump.needs(target, target),
{
    assert(dump.is_dep_walk(seq![target]));
}

/// What is needed needs its dependencies.
pub proof fn lemma_needs_step(
    dump: JustDump,
    target: Seq<char>,
    name: Seq<char>,
    dep: Seq<char>,
)
    requires
        dump.needs(target, name),
        dump.deps_of(name).contains(dep),
    ensures
        dump.needs(target, dep),
{
    let walk = choose|walk: Seq<Seq<char>>| #[trigger]
        dump.is_dep_walk(walk) && walk.len() > 0 && walk.first() == target && walk.last() == name;
    let longer = walk.push(dep);
    assert forall|i: int| 0 <= i < longer.len() - 1 implies dump.deps_of(
        #[trigger] longer[i],
    ).contains(longer[i + 1]) by {
        if i < walk.len() - 1 {
            assert(dump.deps_of(walk[i]).contains(walk[i + 1]));
        }
    }
    assert(dump.is_dep_walk(longer));
    assert(longer.first() == target);
    assert(longer.last() == dep);
}

/// A set of recipes that holds `target` and the dependencies of its recipes holds all that
/// `target` needs.
pub proof fn lemma_closed_holds_needed(
    dump: JustDump,
    target: Seq<char>,
    set: Seq<Seq<char>>,
    walk: Seq<Seq<char>>,
)
    requires
        set.contains(target),
        forall|n: Seq<char>, d: Seq<char>|
            set.contains(n) && #[trigger] dump.deps_of(n).contains(d) ==> set.contains(d),
        dump.is_dep_walk(walk),
        walk.len() > 0,
        walk.first() == target,
    ensures
        set.contains(walk.last()),
    decreases walk.len(),
{
    if walk.len() > 1 {
        let shorter = walk.drop_last();
        assert forall|i: int| 0 <= i < shorter.len() - 1 implies dump.deps_of(
            #[trigger] shorter[i],
        ).contains(shorter[i + 1]) by {
            assert(dump.deps_of(walk[i]).contains(walk[i + 1]));
        }
        lemma_closed_holds_needed(dump, target, set, shorter);
        let k = walk.len() - 2;
        assert(dump.deps_of(walk[k]).contains(walk[k + 1]));
        assert(walk[k] == shorter.last());
    }
}

/// What holds of a search at every step: `seen` lists recipes that `target` needs, none twice,
/// `stack` recipes that it needs too, and no dependency of a recipe in `seen` is left out.
pub open spec fn search_invariant(
    dump: JustDump,
    target: Seq<char>,
    seen: Seq<Seq<char>>,
    stack: Seq<Seq<char>>,
) -> bool {
    &&& seen.no_duplicates()
    &&& forall|n: Seq<char>| #[trigger] seen.contains(n) ==> dump.needs(target, n) && dump.has(n)
    &&& forall|n: Seq<char>| #[trigger] stack.contains(n) ==> dump.needs(target, n)
    &&& forall|n: Seq<char>, d: Seq<char>|
        seen.contains(n) && #[trigger] dump.deps_of(n).contains(d) ==> seen.contains(d)
            || stack.contains(d)
    &&& seen.contains(target) || stack.contains(target)
}

/// A search finds exactly what `target` needs, each recipe once, or a needed recipe that the
/// justfile does not have.
proof fn lemma_search(
    dump: JustDump,
    target: Seq<char>,
    seen: Seq<Seq<char>>,
    stack: Seq<Seq<char>>,
)
    requires
        search_invariant(dump, target, seen, stack),
    ensures
        match search(dump, seen, stack) {
            Search::Found(all) => {
                &&& all.no_duplicates()
                &&& forall|n: Seq<char>| #[trigger] all.contains(n) <==> dump.needs(target, n)
                &&& forall|n: Seq<char>| #[trigger] all.contains(n) ==> dump.has(n)
            },
            Search::Missing(name) => dump.needs(target, name) && !dump.has(name),
        },
    decreases dump.unseen(seen), stack.len(),
{
    if stack.len() == 0 {
        assert forall|n: Seq<char>| dump.needs(target, n) implies #[trigger] seen.contains(n) by {
            let walk = choose|walk: Seq<Seq<char>>| #[trigger]
                dump.is_dep_walk(walk) && walk.len() > 0 && walk.first() == target && walk.last()
                    == n;
            lemma_closed_holds_needed(dump, target, seen, walk);
        }
    } else {
        let name = stack.last();
        let rest = stack.drop_last();
        let more = seen.push(name);
        assert(stack.contains(name));
        assert forall|n: Seq<char>| #[trigger] stack.contains(n) implies n == name || rest.contains(
            n,
        ) by {
            let k = choose|k: int| 0 <= k < stack.len() && stack[k] == n;
            if k < rest.len() {
                assert(rest[k] == n);
            }
        }
        assert forall|n: Seq<char>| #[trigger] rest.contains(n) implies stack.contains(n) by {
            let k = choose|k: int| 0 <= k < rest.len() && rest[k] == n;
            assert(stack[k] == n);
        }
        if seen.contains(name) {
            lemma_search(dump, target, seen, rest);
        } else if dump.has(name) {
            lemma_unseen_shrinks(dump, seen, name);
            let pred = |d: Seq<char>| !more.contains(d);
            let deps = dump.deps_of(name);
            let new = deps.filter(pred);
            let next = rest + new;
            lemma_filter_elements(deps, pred);
            assert(more[seen.len() as int] == name);
            assert forall|n: Seq<char>| #[trigger] more.contains(n) <==> n == name
                || seen.contains(n) by {
                if seen.contains(n) {
                    let k = choose|k: int| 0 <= k < seen.len() && seen[k] == n;
                    assert(more[k] == n);
                }
                if more.contains(n) {
                    let k = choose|k: int| 0 <= k < more.len() && more[k] == n;
                    if k < seen.len() {
                        assert(seen[k] == n);
                    }
                }
            }
            assert forall|n: Seq<char>| #[trigger] next.contains(n) <==> rest.contains(n)
                || new.contains(n) by {
                if rest.contains(n) {
                    let k = choose|k: int| 0 <= k < rest.len() && rest[k] == n;
                    assert(next[k] == n);
                }
                if new.contains(n) {
                    let k = choose|k: int| 0 <= k < new.len() && new[k] == n;
                    assert(next[rest.len() + k] == n);
                }
                if next.contains(n) {
                    let k = choose|k: int| 0 <= k < next.len() && next[k] == n;
                    if k < rest.len() {
                        assert(rest[k] == n);
                    } else {
                        assert(new[k - rest.len()] == n);
                    }
                }
            }
            assert forall|n: Seq<char>| #[trigger] next.contains(n) implies dump.needs(
                target,
                n,
            ) by {
                if new.contains(n) {
                    let k = choose|k: int| 0 <= k < new.len() && new[k] == n;
                    assert(deps.contains(new[k]));
                    lemma_needs_step(dump, target, name, n);
                }
            }
            assert forall|n: Seq<char>, d: Seq<char>|
                more.contains(n) && #[trigger] dump.deps_of(n).contains(d) implies more.contains(d)
                || next.contains(d) by {
                if n == name {
                    if !more.contains(d) {
                        let k = choose|k: int| 0 <= k < deps.len() && deps[k] == d;
                        assert(pred(deps[k]));
                        deps.lemma_filter_contains(pred, k);
                        assert(new.contains(d));
                    }
                }
            }
            lemma_search(dump, target, more, next);
        }
    }
}

/// The search from `target` finds exactly what `target` needs, each recipe once, where the
/// justfile has all of it; otherwise it comes upon a needed recipe that the justfile does not
/// have.
pub proof fn search_finds_needed(dump: JustDump, target: Seq<char>)
    ensures
        match search(dump, Seq::empty(), seq![target]) {
            Search::Found(all) => {
                &&& dump.is_complete(target)
                &&& all.no_duplicates()
                &&& forall|n: Seq<char>| #[trigger] all.contains(n) <==> dump.needs(target, n)
            },
            Search::Missing(name) => {
                &&& !dump.is_complete(target)
                &&& dump.needs(target, name)
                &&& !dump.has(name)
            },
        },
{
    let stack = seq![target];
    lemma_needs_self(dump, target);
    assert(stack[0] == target);
    assert(search_invariant(dump, target, Seq::empty(), stack));
    lemma_search(dump, target, Seq::empty(), stack);
    if let Search::Found(all) = search(dump, Seq::empty(), stack) {
        assert forall|n: Seq<char>| #[trigger] dump.needs(target, n) implies dump.has(n) by {
            assert(all.contains(n));
        }
    }
}

/// The dependencies of a recipe are those that stand in it, in order, and a name that the
/// justfile does not have depends on nothing.
pub proof fn dependencies_stand_in_the_recipe(dump: JustDump, name: Seq<char>)
    ensures
        dump.has(name) <==> dump.recipes.names().contains(name),
        match dump.recipes.at(name) {
            Some(r) => dump.deps_of(name).len() == r.dependencies@.len() && forall|j: int|
                0 <= j < r.dependencies@.len() ==> #[trigger] dump.deps_of(name)[j]
                    == r.dependencies@[j].recipe@,
            None => dump.deps_of(name).len() == 0,
        },
{
}

/// What a target needs is the least that holds the target and with a recipe its dependencies.
pub proof fn needed_is_the_least_closed_set(
    dump: JustDump,
    target: Seq<char>,
    set: Set<Seq<char>>,
)
    ensures
        dump.needs(target, target),
        forall|n: Seq<char>, d: Seq<char>|
            dump.needs(target, n) && #[trigger] dump.deps_of(n).contains(d) ==> dump.needs(
                target,
                d,
            ),
        (set.contains(target) && forall|n: Seq<char>, d: Seq<char>|
            set.contains(n) && #[trigger] dump.deps_of(n).contains(d) ==> set.contains(d))
            ==> forall|n: Seq<char>| #[trigger] dump.needs(target, n) ==> set.contains(n),
{
    lemma_needs_self(dump, target);
    assert forall|n: Seq<char>, d: Seq<char>|
        dump.needs(target, n) && #[trigger] dump.deps_of(n).contains(d) implies dump.needs(
        target,
        d,
    ) by {
        lemma_needs_step(dump, target, n, d);
    }
    if set.contains(target) && forall|n: Seq<char>, d: Seq<char>|
        set.contains(n) && #[trigger] dump.deps_of(n).contains(d) ==> set.contains(d) {
        assert forall|n: Seq<char>| #[trigger] dump.needs(target, n) implies set.contains(n) by {
            let walk = choose|walk: Seq<Seq<char>>| #[trigger]
                dump.is_dep_walk(walk) && walk.len() > 0 && walk.first() == target && walk.last()
                    == n;
            lemma_walk_stays_in(dump, set, walk, walk.len() - 1);
        }
    }
}

proof fn lemma_walk_stays_in(
    dump: JustDump,
    set: Set<Seq<char>>,
    walk: Seq<Seq<char>>,
    k: int,
)
    requires
        forall|n: Seq<char>, d: Seq<char>|
            set.contains(n) && #[trigger] dump.deps_of(n).contains(d) ==> set.contains(d),
        dump.is_dep_walk(walk),
        0 <= k < walk.len(),
        set.contains(walk[0]),
    ensures
        set.contains(walk[k]),
    decreases k,
{
    if k > 0 {
        lemma_walk_stays_in(dump, set, walk, k - 1);
        assert(dump.deps_of(walk[k - 1]).contains(walk[k]));
    }
}

/// A recipe is on a cycle exactly where one of its dependencies needs it.
pub proof fn cycle_leads_back(dump: JustDump, name: Seq<char>)
    ensures
        dump.on_dep_cycle(name) <==> exists|d: Seq<char>|
            dump.deps_of(name).contains(d) && #[trigger] dump.needs(d, name),
{
    if dump.on_dep_cycle(name) {
        let walk = choose|walk: Seq<Seq<char>>| #[trigger]
            dump.is_dep_walk(walk) && walk.len() >= 2 && walk.first() == name && walk.last()
                == name;
        let rest = walk.drop_first();
        assert(dump.deps_of(walk[0]).contains(walk[1]));
        assert forall|i: int| 0 <= i < rest.len() - 1 implies dump.deps_of(
            #[trigger] rest[i],
        ).contains(rest[i + 1]) by {
            assert(dump.deps_of(walk[i + 1]).contains(walk[i + 2]));
        }
        assert(dump.is_dep_walk(rest));
        assert(rest.first() == walk[1]);
        assert(rest.last() == name);
        assert(dump.needs(walk[1], name));
    }
    if exists|d: Seq<char>| dump.deps_of(name).contains(d) && #[trigger] dump.needs(d, name) {
        let d = choose|d: Seq<char>|
            dump.deps_of(name).contains(d) && #[trigger] dump.needs(d, name);
        let rest = choose|walk: Seq<Seq<char>>| #[trigger]
            dump.is_dep_walk(walk) && walk.len() > 0 && walk.first() == d && walk.last() == name;
        let walk = seq![name] + rest;
        assert forall|i: int| 0 <= i < walk.len() - 1 implies dump.deps_of(
            #[trigger] walk[i],
        ).contains(walk[i + 1]) by {
            if i > 0 {
                assert(dump.deps_of(rest[i - 1]).contains(rest[i]));
            }
        }
        assert(dump.is_dep_walk(walk));
        assert(walk.last() == name);
    }
}

} // verus!
