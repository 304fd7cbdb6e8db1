//! What a dependency name comes to stand for.

use crate::namepath::colon_free;
use crate::namepath::is_qualified;
use crate::namepath::module_of;
use crate::namepath::plain_names_have_no_separators;
use crate::namepath::separator;
use crate::namepath::separator_count;
use crate::namepath::separators_add_up;
use crate::resolve::candidates;
use crate::resolve::duplicates_resolve_to_distinct_recipes;
use crate::resolve::ends_in;
use crate::resolve::in_child_of;
use crate::resolve::only_candidate;
use crate::resolve::resolved_deps;
use crate::sequences::lemma_filter_elements;
use crate::sequences::lemma_filter_keeps;
use crate::sequences::lemma_rank;
use crate::sequences::occurrences;
use crate::sequences::occurrences_are_positions;
use crate::sequences::positions_of;
use vstd::prelude::*;

verus! {

/// The name path of a recipe in a child module: `module::child::name`, or `child::name` where
/// the module is the root.
pub open spec fn child_path(module: Seq<char>, child: Seq<char>, name: Seq<char>) -> Seq<char> {
    if module.len() == 0 {
        child + "::"@ + name
    } else {
        module + "::"@ + child + "::"@ + name
    }
}

/// Every recipe of the name in a direct child module is a candidate, unless a sibling has the
/// name.
pub proof fn child_recipes_are_candidates(
    name: Seq<char>,
    module: Seq<char>,
    child: Seq<char>,
    keys: Seq<Seq<char>>,
)
    requires
        colon_free(name),
        colon_free(child),
        module.len() > 0 ==> module.last() != ':' && !keys.contains(module + "::"@ + name),
        keys.contains(child_path(module, child, name)),
    ensures
        candidates(name, module, keys).contains(child_path(module, child, name)),
{
    reveal_strlit("::");
    assert("::"@ =~= separator());
    let path = child_path(module, child, name);
    plain_names_have_no_separators(name);
    plain_names_have_no_separators(child);
    separators_add_up(child, name);
    assert(ends_in(path, name)) by {
        let at = path.len() - name.len() - 2;
        assert(path.subrange(at, path.len() as int) =~= separator() + name);
    }
    if module.len() > 0 {
        let inner = child + "::"@ + name;
        assert(path =~= module + "::"@ + inner);
        separators_add_up(module, inner);
        assert(path.take((module.len() + 2) as int) =~= module + separator());
        assert((module + separator()).is_prefix_of(path));
    }
    assert(in_child_of(path, name, module));
    let pred = |p: Seq<char>| in_child_of(p, name, module);
    let k = choose|k: int| 0 <= k < keys.len() && keys[k] == path;
    lemma_filter_keeps(keys, pred, k);
}

/// Every candidate is a recipe: the sibling of the name and then nothing else, or else one that
/// ends in the name, begins with the module, and lies one module deeper.
pub proof fn only_near_recipes_are_candidates(
    name: Seq<char>,
    module: Seq<char>,
    keys: Seq<Seq<char>>,
    i: int,
)
    requires
        0 <= i < candidates(name, module, keys).len(),
    ensures
        ({
            let path = candidates(name, module, keys)[i];
            &&& keys.contains(path)
            &&& ("::"@ + name).is_suffix_of(path)
            &&& if module.len() == 0 {
                separator_count(path) == 1
            } else if keys.contains(module + "::"@ + name) {
                path == module + "::"@ + name && candidates(name, module, keys).len() == 1
            } else {
                (module + "::"@).is_prefix_of(path) && separator_count(path) == separator_count(
                    module,
                ) + 2
            }
        }),
{
    reveal_strlit("::");
    assert("::"@ =~= separator());
    let sibling = module + separator() + name;
    if module.len() > 0 && keys.contains(sibling) {
        assert(sibling.subrange(module.len() as int, sibling.len() as int) =~= separator() + name);
    } else {
        let pred = |path: Seq<char>| in_child_of(path, name, module);
        lemma_filter_elements(keys, pred);
        let found = keys.filter(pred);
        assert(keys.contains(found[i]) && pred(found[i]));
    }
}

/// Resolution gives each dependency one name.
pub proof fn every_dependency_keeps_its_place(
    deps: Seq<Seq<char>>,
    namepath: Seq<char>,
    keys: Seq<Seq<char>>,
    written: Option<Seq<Seq<char>>>,
)
    ensures
        resolved_deps(deps, namepath, keys, written).len() == deps.len(),
{
}

/// A dependency that is written with a module is taken as it is written, within the module of
/// the recipe.
pub proof fn written_module_is_followed(
    deps: Seq<Seq<char>>,
    i: int,
    namepath: Seq<char>,
    keys: Seq<Seq<char>>,
    written: Seq<Seq<char>>,
)
    requires
        0 <= i < deps.len(),
        written.len() == deps.len(),
        is_qualified(written[i]),
    ensures
        resolved_deps(deps, namepath, keys, Some(written))[i] == if module_of(namepath).len() == 0 {
            written[i]
        } else {
            module_of(namepath) + "::"@ + written[i]
        },
{
    reveal_strlit("::");
    assert("::"@ =~= separator());
}

/// A dependency that is written as a short name, and that no sibling has, stands for the recipe
/// of exactly that name, where there is one other than the recipe itself. It does so whatever
/// recipes of modules have the name too; a root recipe has no siblings.
pub proof fn written_short_name_is_kept(
    deps: Seq<Seq<char>>,
    i: int,
    namepath: Seq<char>,
    keys: Seq<Seq<char>>,
    written: Seq<Seq<char>>,
)
    requires
        0 <= i < deps.len(),
        written.len() == deps.len(),
        !is_qualified(written[i]),
        module_of(namepath).len() == 0 || !keys.contains(
            module_of(namepath) + "::"@ + deps[i],
        ),
        keys.contains(deps[i]),
        deps[i] != namepath,
    ensures
        resolved_deps(deps, namepath, keys, Some(written))[i] == deps[i],
{
    reveal_strlit("::");
    assert("::"@ =~= separator());
}

/// A dependency that is written as a short name which no other recipe has, nor a sibling, stands
/// for its only candidate, and for itself where there is none or more than one.
pub proof fn written_unknown_name_is_searched(
    deps: Seq<Seq<char>>,
    i: int,
    namepath: Seq<char>,
    keys: Seq<Seq<char>>,
    written: Seq<Seq<char>>,
)
    requires
        0 <= i < deps.len(),
        written.len() == deps.len(),
        !is_qualified(written[i]),
        !keys.contains(deps[i]) || deps[i] == namepath,
    ensures
        ({
            let found = candidates(deps[i], module_of(namepath), keys);
            resolved_deps(deps, namepath, keys, Some(written))[i] == if found.len() == 1 {
                found[0]
            } else {
                deps[i]
            }
        }),
{
}

/// What is written counts only where as many dependencies are written as there are.
pub proof fn other_number_written_is_ignored(
    deps: Seq<Seq<char>>,
    namepath: Seq<char>,
    keys: Seq<Seq<char>>,
    written: Seq<Seq<char>>,
)
    requires
        written.len() != deps.len(),
    ensures
        resolved_deps(deps, namepath, keys, Some(written)) == resolved_deps(
            deps,
            namepath,
            keys,
            None,
        ),
{
}

/// Where nothing is written, a name that occurs once and that exactly one other recipe has, at
/// any depth, is kept.
pub proof fn unambiguous_name_is_kept(
    deps: Seq<Seq<char>>,
    i: int,
    namepath: Seq<char>,
    keys: Seq<Seq<char>>,
)
    requires
        0 <= i < deps.len(),
        forall|j: int| 0 <= j < deps.len() && j != i ==> #[trigger] deps[j] != deps[i],
        keys.contains(deps[i]),
        deps[i] != namepath,
        forall|k: int|
            0 <= k < keys.len() ==> !("::"@ + deps[i]).is_suffix_of(#[trigger] keys[k]),
    ensures
        resolved_deps(deps, namepath, keys, None)[i] == deps[i],
{
    reveal_strlit("::");
    assert("::"@ =~= separator());
    lemma_occurs_once(deps, i);
}

proof fn lemma_occurs_once(deps: Seq<Seq<char>>, i: int)
    requires
        0 <= i < deps.len(),
        forall|j: int| 0 <= j < deps.len() && j != i ==> #[trigger] deps[j] != deps[i],
    ensures
        occurrences(deps, deps[i]) == 1,
{
    occurrences_are_positions(deps, deps[i]);
    let all = positions_of(deps, deps[i]);
    assert(all =~= Set::<int>::empty().insert(i));
}

/// Where nothing is written, a name that is not settled stands for a candidate, where it occurs
/// as often as it has candidates. Where it occurs more or less often it is kept.
pub proof fn names_stand_for_their_candidates(
    deps: Seq<Seq<char>>,
    i: int,
    namepath: Seq<char>,
    keys: Seq<Seq<char>>,
)
    requires
        0 <= i < deps.len(),
        !keys.contains(deps[i]) || deps[i] == namepath || (exists|j: int|
            0 <= j < deps.len() && j != i && #[trigger] deps[j] == deps[i]) || exists|k: int|
            0 <= k < keys.len() && ("::"@ + deps[i]).is_suffix_of(#[trigger] keys[k]),
    ensures
        ({
            let found = candidates(deps[i], module_of(namepath), keys);
            let times = positions_of(deps, deps[i]).len();
            if found.len() == times {
                found.contains(resolved_deps(deps, namepath, keys, None)[i])
            } else {
                resolved_deps(deps, namepath, keys, None)[i] == deps[i]
            }
        }),
{
    reveal_strlit("::");
    assert("::"@ =~= separator());
    let name = deps[i];
    let found = candidates(name, module_of(namepath), keys);
    let all = positions_of(deps, name);
    occurrences_are_positions(deps, name);
    lemma_rank(deps, i);
    if exists|j: int| 0 <= j < deps.len() && j != i && #[trigger] deps[j] == name {
        let j = choose|j: int| 0 <= j < deps.len() && j != i && #[trigger] deps[j] == name;
        assert(all.contains(i) && all.contains(j));
        assert(all.remove(i).contains(j));
        assert(all.remove(i).len() > 0);
        assert(occurrences(deps, name) > 1);
    }
    if exists|k: int| 0 <= k < keys.len() && ("::"@ + name).is_suffix_of(#[trigger] keys[k]) {
        let k = choose|k: int|
            0 <= k < keys.len() && ("::"@ + name).is_suffix_of(#[trigger] keys[k]);
        assert(ends_in(keys[k], name));
    }
    if found.len() == all.len() {
        let rank = occurrences(deps.take(i), name) as int;
        assert(found.contains(found[rank]));
    }
}

/// Different places of one name stand for different recipes, where the name occurs as often as
/// it has candidates and no name path occurs twice.
pub proof fn places_of_a_name_stand_apart(
    deps: Seq<Seq<char>>,
    i: int,
    j: int,
    namepath: Seq<char>,
    keys: Seq<Seq<char>>,
)
    requires
        keys.no_duplicates(),
        0 <= i < j < deps.len(),
        deps[i] == deps[j],
        candidates(deps[i], module_of(namepath), keys).len() == positions_of(
            deps,
            deps[i],
        ).len(),
    ensures
        resolved_deps(deps, namepath, keys, None)[i] != resolved_deps(
            deps,
            namepath,
            keys,
            None,
        )[j],
{
    occurrences_are_positions(deps, deps[i]);
    duplicates_resolve_to_distinct_recipes(deps, i, j, namepath, keys);
}

/// A dependency that is written as a short name stands for the sibling of that name, where there
/// is one.
pub proof fn written_short_name_is_the_sibling(
    deps: Seq<Seq<char>>,
    i: int,
    namepath: Seq<char>,
    keys: Seq<Seq<char>>,
    written: Seq<Seq<char>>,
)
    requires
        0 <= i < deps.len(),
        written.len() == deps.len(),
        !is_qualified(written[i]),
        module_of(namepath).len() > 0,
        keys.contains(module_of(namepath) + "::"@ + deps[i]),
    ensures
        resolved_deps(deps, namepath, keys, Some(written))[i] == module_of(namepath) + "::"@
            + deps[i],
{
    reveal_strlit("::");
    assert("::"@ =~= separator());
}

/// A recipe is a candidate where it ends in the name, begins with the module, and lies one
/// module deeper, unless a sibling has the name. The sibling then is the only candidate.
pub proof fn near_recipes_are_candidates(
    name: Seq<char>,
    module: Seq<char>,
    keys: Seq<Seq<char>>,
    path: Seq<char>,
)
    requires
        keys.contains(path),
        ("::"@ + name).is_suffix_of(path),
        module.len() > 0 ==> (module + "::"@).is_prefix_of(path),
        separator_count(path) == if module.len() == 0 {
            1
        } else {
            separator_count(module) + 2
        },
    ensures
        module.len() == 0 || !keys.contains(module + "::"@ + name) ==> candidates(
            name,
            module,
            keys,
        ).contains(path),
        module.len() > 0 && keys.contains(module + "::"@ + name) ==> candidates(name, module, keys)
            == seq![module + "::"@ + name],
{
    reveal_strlit("::");
    assert("::"@ =~= separator());
    let pred = |p: Seq<char>| in_child_of(p, name, module);
    let k = choose|k: int| 0 <= k < keys.len() && keys[k] == path;
    lemma_filter_keeps(keys, pred, k);
}

/// A name has an only candidate exactly where it has one, and that is the one.
pub proof fn only_candidate_is_the_one(name: Seq<char>, module: Seq<char>, keys: Seq<Seq<char>>)
    ensures
        candidates(name, module, keys).len() == 1 ==> only_candidate(name, module, keys) == Some(
            candidates(name, module, keys)[0],
        ),
        candidates(name, module, keys).len() != 1 ==> only_candidate(name, module, keys) is None,
{
}

} // verus!
