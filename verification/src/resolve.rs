//! Resolution of short dependency names to name paths.

use crate::namepath::begins_with;
use crate::namepath::count_separators;
use crate::namepath::finishes_with;
use crate::namepath::has_separator;
use crate::namepath::is_qualified;
use crate::namepath::module_of;
use crate::namepath::module_prefix;
use crate::namepath::qualify;
use crate::namepath::separator;
use crate::namepath::separator_at;
use crate::namepath::separator_count;
use crate::namepath::within;
use crate::sequences::lemma_filter_distinct;
use crate::sequences::lemma_filter_elements;
use crate::sequences::lemma_occurrences_grow;
use crate::sequences::lemma_rank;
use crate::sequences::occurrences;
use crate::source::opt_views;
use crate::text::same_text;
use crate::text::views;
use vstd::prelude::*;

verus! {

/// Whether `path` names a recipe `name` in some module, at any depth.
pub open spec fn ends_in(path: Seq<char>, name: Seq<char>) -> bool {
    (separator() + name).is_suffix_of(path)
}

/// Whether `path` names a recipe `name` in a direct child of the module `module`.
pub open spec fn in_child_of(path: Seq<char>, name: Seq<char>, module: Seq<char>) -> bool {
    &&& ends_in(path, name)
    &&& if module.len() == 0 {
        separator_count(path) == 1
    } else {
        &&& (module + separator()).is_prefix_of(path)
        &&& separator_count(path) == separator_count(module) + 2
    }
}

/// The name paths that the dependency `name` of a recipe in `module` can stand for: the sibling
/// of that name, or else the recipes of that name in the direct child modules.
pub open spec fn candidates(name: Seq<char>, module: Seq<char>, keys: Seq<Seq<char>>) -> Seq<
    Seq<char>,
> {
    let sibling = module + separator() + name;
    if module.len() > 0 && keys.contains(sibling) {
        seq![sibling]
    } else {
        keys.filter(|path: Seq<char>| in_child_of(path, name, module))
    }
}

/// The only candidate, where there is exactly one.
pub open spec fn only_candidate(name: Seq<char>, module: Seq<char>, keys: Seq<Seq<char>>) -> Option<
    Seq<char>,
> {
    let found = candidates(name, module, keys);
    if found.len() == 1 {
        Some(found[0])
    } else {
        None
    }
}

/// What the dependency `name` of the recipe `namepath` stands for, where the justfile writes it
/// as `written`: what is written with a module is within the recipe's own module, and a short
/// name stands for a sibling first.
pub open spec fn resolved_as_written(
    name: Seq<char>,
    written: Seq<char>,
    namepath: Seq<char>,
    keys: Seq<Seq<char>>,
) -> Seq<char> {
    let module = module_of(namepath);
    if is_qualified(written) {
        within(module, written)
    } else if module.len() > 0 && keys.contains(within(module, name)) {
        within(module, name)
    } else if keys.contains(name) && name != namepath {
        name
    } else {
        match only_candidate(name, module, keys) {
            Some(path) => path,
            None => name,
        }
    }
}

/// What the dependency `deps[i]` of the recipe `namepath` stands for, where nothing but the
/// recipes' name paths is known. A name that occurs n times stands for its n candidates in
/// turn, and for itself where there are more or fewer candidates.
pub open spec fn resolved_by_name(
    deps: Seq<Seq<char>>,
    i: int,
    namepath: Seq<char>,
    keys: Seq<Seq<char>>,
) -> Seq<char> {
    let name = deps[i];
    let count = occurrences(deps, name);
    let found = candidates(name, module_of(namepath), keys);
    if is_settled(name, count, namepath, keys) {
        name
    } else if found.len() == count {
        found[occurrences(deps.take(i), name) as int]
    } else {
        name
    }
}

/// Whether a dependency name is taken as it stands: it occurs once, names a recipe other than
/// the one that depends on it, and no recipe in any module has the name too.
pub open spec fn is_settled(
    name: Seq<char>,
    count: nat,
    namepath: Seq<char>,
    keys: Seq<Seq<char>>,
) -> bool {
    &&& count == 1
    &&& keys.contains(name)
    &&& name != namepath
    &&& forall|k: int| 0 <= k < keys.len() ==> !ends_in(#[trigger] keys[k], name)
}

/// What the dependencies of the recipe `namepath` stand for. Where the justfile writes as many
/// dependencies as there are, each is taken as it is written at its place.
pub open spec fn resolved_deps(
    deps: Seq<Seq<char>>,
    namepath: Seq<char>,
    keys: Seq<Seq<char>>,
    written: Option<Seq<Seq<char>>>,
) -> Seq<Seq<char>> {
    match written {
        Some(w) if w.len() == deps.len() => Seq::new(
            deps.len(),
            |i: int| resolved_as_written(deps[i], w[i], namepath, keys),
        ),
        _ => Seq::new(deps.len(), |i: int| resolved_by_name(deps, i, namepath, keys)),
    }
}

/// Whether a list of strings holds a text
pub fn has_text(list: &Vec<String>, x: &str) -> (r: bool)
    ensures
        r == views(list@).contains(x@),
{
    for i in 0..list.len()
        invariant
            forall|j: int| 0 <= j < i ==> views(list@)[j] != x@,
    {
        assert(views(list@)[i as int] == list@[i as int]@);
        if same_text(list[i].as_str(), x) {
            return true;
        }
    }
    false
}

/// The number of the first `end` strings that are equal to a text
fn count_text(list: &Vec<String>, end: usize, x: &str) -> (r: usize)
    requires
        end <= list.len(),
    ensures
        r == occurrences(views(list@).take(end as int), x@),
{
    let ghost v = views(list@);
    let mut count: usize = 0;
    for i in 0..end
        invariant
            end <= list.len(),
            v == views(list@),
            count <= i,
            count == occurrences(v.take(i as int), x@),
    {
        assert(v.take(i + 1).drop_last() =~= v.take(i as int));
        assert(v[i as int] == list@[i as int]@);
        if same_text(list[i].as_str(), x) {
            count = count + 1;
        }
    }
    count
}

/// Find candidate name paths for a short dependency name within a module scope.
/// Checks siblings first, then direct child modules.
pub fn find_candidates(name: &str, module: &str, keys: &Vec<String>) -> (r: Vec<String>)
    ensures
        views(r@) == candidates(name@, module@, views(keys@)),
{
    let mut suffix: String = "::".to_owned();
    suffix.append(name);
    let mut start: String = module.to_owned();
    start.append("::");
    proof {
        reveal_strlit("::");
        assert("::"@ =~= separator());
    }
    if !module.is_empty() {
        let sibling: String = qualify(module, name);
        assert(sibling@ =~= module@ + separator() + name@);
        if has_text(keys, sibling.as_str()) {
            let mut r: Vec<String> = Vec::new();
            r.push(sibling);
            assert(views(r@) =~= seq![sibling@]);
            return r;
        }
    }
    let depth: usize = count_separators(module);
    let ghost all = views(keys@);
    let ghost pred = |path: Seq<char>| in_child_of(path, name@, module@);
    let mut r: Vec<String> = Vec::new();
    assert(all.take(0) =~= Seq::<Seq<char>>::empty());
    for i in 0..keys.len()
        invariant
            all == views(keys@),
            pred == (|path: Seq<char>| in_child_of(path, name@, module@)),
            suffix@ == separator() + name@,
            start@ == module@ + separator(),
            depth == separator_count(module@),
            views(r@) == all.take(i as int).filter(pred),
    {
        let path: &String = &keys[i];
        assert(all[i as int] == path@);
        assert(all.take(i + 1).drop_last() =~= all.take(i as int));
        let mut matching: bool = finishes_with(path.as_str(), suffix.as_str());
        if matching {
            let n: usize = count_separators(path.as_str());
            matching = if module.is_empty() {
                n == 1
            } else {
                n >= 2 && n - 2 == depth && begins_with(path.as_str(), start.as_str())
            };
        }
        assert(matching == pred(path@));
        let ghost before = views(r@);
        reveal(Seq::filter);
        if matching {
            r.push(path.clone());
            assert(views(r@) =~= before.push(path@));
        }
    }
    assert(all.take(keys.len() as int) =~= all);
    r
}

/// Resolve a single dependency name. Returns the resolved name path if exactly one candidate is
/// found.
pub fn resolve_dep_heuristic(name: &str, module: &str, keys: &Vec<String>) -> (r: Option<String>)
    ensures
        match r {
            Some(path) => only_candidate(name@, module@, views(keys@)) == Some(path@),
            None => only_candidate(name@, module@, views(keys@)) is None,
        },
{
    let found: Vec<String> = find_candidates(name, module, keys);
    assert(views(found@).len() == found@.len());
    if found.len() == 1 {
        assert(views(found@)[0] == found@[0]@);
        Some(found[0].clone())
    } else {
        None
    }
}

/// Whether a recipe in any module has a name
fn occurs_in_module(name: &str, keys: &Vec<String>) -> (r: bool)
    ensures
        r == exists|k: int| 0 <= k < views(keys@).len() && ends_in(#[trigger] views(keys@)[k], name@),
{
    let mut suffix: String = "::".to_owned();
    suffix.append(name);
    proof {
        reveal_strlit("::");
        assert("::"@ =~= separator());
    }
    for i in 0..keys.len()
        invariant
            suffix@ == separator() + name@,
            forall|j: int| 0 <= j < i ==> !ends_in(#[trigger] views(keys@)[j], name@),
    {
        assert(views(keys@)[i as int] == keys@[i as int]@);
        if finishes_with(keys[i].as_str(), suffix.as_str()) {
            return true;
        }
    }
    false
}

/// Resolve a dependency by what the justfile writes for it
fn resolve_as_written(
    name: &String,
    written: &str,
    namepath: &str,
    module: &str,
    keys: &Vec<String>,
) -> (r: String)
    requires
        module@ == module_of(namepath@),
    ensures
        r@ == resolved_as_written(name@, written@, namepath@, views(keys@)),
{
    let sibling: String = qualify(module, name.as_str());
    if has_separator(written) {
        qualify(module, written)
    } else if !module.is_empty() && has_text(keys, sibling.as_str()) {
        sibling
    } else if has_text(keys, name.as_str()) && !same_text(name.as_str(), namepath) {
        name.clone()
    } else {
        match resolve_dep_heuristic(name.as_str(), module, keys) {
            Some(path) => path,
            None => name.clone(),
        }
    }
}

/// Resolve the dependency `deps[i]` by the recipes' name paths alone
fn resolve_by_name(
    deps: &Vec<String>,
    i: usize,
    namepath: &str,
    module: &str,
    keys: &Vec<String>,
) -> (r: String)
    requires
        i < deps.len(),
        module@ == module_of(namepath@),
    ensures
        r@ == resolved_by_name(views(deps@), i as int, namepath@, views(keys@)),
{
    let name: &String = &deps[i];
    let ghost v = views(deps@);
    assert(v[i as int] == name@);
    assert(v.take(deps.len() as int) =~= v);
    let count: usize = count_text(deps, deps.len(), name.as_str());
    if count == 1 && has_text(keys, name.as_str()) && !same_text(name.as_str(), namepath) {
        if !occurs_in_module(name.as_str(), keys) {
            return name.clone();
        }
    }
    let found: Vec<String> = find_candidates(name.as_str(), module, keys);
    assert(views(found@).len() == found@.len());
    if found.len() == count {
        let rank: usize = count_text(deps, i, name.as_str());
        proof {
            lemma_rank(v, i as int);
        }
        assert(views(found@)[rank as int] == found@[rank as int]@);
        found[rank].clone()
    } else {
        name.clone()
    }
}

/// Resolve the dependencies of the recipe `namepath`
pub fn resolve_deps(
    deps: &Vec<String>,
    namepath: &str,
    keys: &Vec<String>,
    written: &Option<Vec<String>>,
) -> (r: Vec<String>)
    ensures
        views(r@) == resolved_deps(views(deps@), namepath@, views(keys@), opt_views(*written)),
{
    let prefix: String = module_prefix(namepath);
    let module: &str = prefix.as_str();
    let ghost v = views(deps@);
    let ghost target = resolved_deps(v, namepath@, views(keys@), opt_views(*written));
    let mut r: Vec<String> = Vec::new();
    if let Some(w) = written {
        if w.len() == deps.len() {
            assert(views(w@).len() == v.len());
            for i in 0..deps.len()
                invariant
                    v == views(deps@),
                    w.len() == deps.len(),
                    module@ == module_of(namepath@),
                    views(r@) == target.take(i as int),
                    target == Seq::new(
                        v.len(),
                        |i: int|
                            resolved_as_written(v[i], views(w@)[i], namepath@, views(keys@)),
                    ),
            {
                assert(views(w@)[i as int] == w@[i as int]@);
                assert(v[i as int] == deps@[i as int]@);
                let path: String = resolve_as_written(
                    &deps[i],
                    w[i].as_str(),
                    namepath,
                    module,
                    keys,
                );
                let ghost before = views(r@);
                r.push(path);
                assert(views(r@) =~= before.push(path@));
                assert(target.take(i + 1) =~= target.take(i as int).push(target[i as int]));
            }
            assert(target.take(deps.len() as int) =~= target);
            return r;
        }
    }
    assert(written matches Some(w) ==> views(w@).len() != v.len());
    for i in 0..deps.len()
        invariant
            v == views(deps@),
            module@ == module_of(namepath@),
            views(r@) == target.take(i as int),
            target == Seq::new(
                v.len(),
                |i: int| resolved_by_name(v, i, namepath@, views(keys@)),
            ),
    {
        let path: String = resolve_by_name(deps, i, namepath, module, keys);
        let ghost before = views(r@);
        r.push(path);
        assert(views(r@) =~= before.push(path@));
        assert(target.take(i + 1) =~= target.take(i as int).push(target[i as int]));
    }
    assert(target.take(deps.len() as int) =~= target);
    r
}

/// Every candidate for a dependency name is the name path of a recipe of that name in some
/// module.
pub proof fn candidates_are_recipes(
    name: Seq<char>,
    module: Seq<char>,
    keys: Seq<Seq<char>>,
    i: int,
)
    requires
        0 <= i < candidates(name, module, keys).len(),
    ensures
        keys.contains(candidates(name, module, keys)[i]),
        ends_in(candidates(name, module, keys)[i], name),
        is_qualified(candidates(name, module, keys)[i]),
{
    let sibling = module + separator() + name;
    let found = candidates(name, module, keys);
    if module.len() > 0 && keys.contains(sibling) {
        assert(sibling.subrange(module.len() as int, sibling.len() as int) =~= separator() + name);
    } else {
        let pred = |path: Seq<char>| in_child_of(path, name, module);
        lemma_filter_elements(keys, pred);
        assert(found == keys.filter(pred));
        assert(keys.contains(found[i]) && pred(found[i]));
    }
    let path = found[i];
    let at = path.len() - name.len() - 2;
    assert((separator() + name)[0] == path[at]);
    assert((separator() + name)[1] == path[at + 1]);
    assert(separator_at(path, at));
}

/// No candidate occurs twice, where no name path does.
pub proof fn candidates_are_distinct(name: Seq<char>, module: Seq<char>, keys: Seq<Seq<char>>)
    requires
        keys.no_duplicates(),
    ensures
        candidates(name, module, keys).no_duplicates(),
{
    let pred = |path: Seq<char>| in_child_of(path, name, module);
    lemma_filter_distinct(keys, pred);
}

/// A dependency name that occurs as often as it has candidates resolves at each of its places to
/// a candidate of its own.
pub proof fn duplicates_resolve_to_distinct_recipes(
    deps: Seq<Seq<char>>,
    i: int,
    j: int,
    namepath: Seq<char>,
    keys: Seq<Seq<char>>,
)
    requires
        keys.no_duplicates(),
        0 <= i < j < deps.len(),
        deps[i] == deps[j],
        candidates(deps[i], module_of(namepath), keys).len() == occurrences(deps, deps[i]),
    ensures
        resolved_by_name(deps, i, namepath, keys) != resolved_by_name(deps, j, namepath, keys),
        candidates(deps[i], module_of(namepath), keys).contains(
            resolved_by_name(deps, i, namepath, keys),
        ),
        candidates(deps[i], module_of(namepath), keys).contains(
            resolved_by_name(deps, j, namepath, keys),
        ),
{
    let name = deps[i];
    let found = candidates(name, module_of(namepath), keys);
    candidates_are_distinct(name, module_of(namepath), keys);
    lemma_occurrences_grow(deps, name, i, j);
    lemma_rank(deps, i);
    lemma_rank(deps, j);
    assert(occurrences(deps, name) >= 2);
    assert(found.contains(found[occurrences(deps.take(i), name) as int]));
    assert(found.contains(found[occurrences(deps.take(j), name) as int]));
}

/// A dependency of a root recipe that resolves to a candidate does not resolve to the recipe
/// itself.
pub proof fn root_recipe_is_no_candidate(name: Seq<char>, namepath: Seq<char>, keys: Seq<Seq<char>>)
    requires
        !is_qualified(namepath),
    ensures
        !candidates(name, module_of(namepath), keys).contains(namepath),
{
    let found = candidates(name, module_of(namepath), keys);
    if found.contains(namepath) {
        let k = choose|k: int| 0 <= k < found.len() && found[k] == namepath;
        candidates_are_recipes(name, module_of(namepath), keys, k);
    }
}

/// A short name that a recipe of the same module has stands for that recipe, whether or not the
/// justfile was read, and whatever other recipes have the name.
pub proof fn sibling_comes_first(
    deps: Seq<Seq<char>>,
    i: int,
    namepath: Seq<char>,
    keys: Seq<Seq<char>>,
    written: Option<Seq<Seq<char>>>,
)
    requires
        0 <= i < deps.len(),
        module_of(namepath).len() > 0,
        keys.contains(within(module_of(namepath), deps[i])),
        occurrences(deps, deps[i]) == 1,
        written matches Some(w) ==> w.len() == deps.len() ==> !is_qualified(w[i]),
    ensures
        candidates(deps[i], module_of(namepath), keys) == seq![
            within(module_of(namepath), deps[i]),
        ],
        resolved_deps(deps, namepath, keys, written)[i] == within(module_of(namepath), deps[i]),
{
    let name = deps[i];
    let sibling = within(module_of(namepath), name);
    let k = choose|k: int| 0 <= k < keys.len() && keys[k] == sibling;
    assert(sibling.subrange(module_of(namepath).len() as int, sibling.len() as int)
        =~= separator() + name);
    assert(ends_in(keys[k], name));
    lemma_rank(deps, i);
}

/// A dependency that is resolved by its name alone either resolves to a recipe or keeps its
/// name.
pub proof fn resolved_names_are_recipes(
    deps: Seq<Seq<char>>,
    i: int,
    namepath: Seq<char>,
    keys: Seq<Seq<char>>,
)
    requires
        0 <= i < deps.len(),
    ensures
        resolved_by_name(deps, i, namepath, keys) == deps[i] || keys.contains(
            resolved_by_name(deps, i, namepath, keys),
        ),
{
    let name = deps[i];
    let module = module_of(namepath);
    lemma_rank(deps, i);
    if candidates(name, module, keys).len() == occurrences(deps, name) {
        candidates_are_recipes(name, module, keys, occurrences(deps.take(i), name) as int);
    }
}

/// Where no recipe is in a module, and the justfile writes no dependency with a module, every
/// dependency keeps its name.
pub proof fn names_without_modules_are_kept(
    deps: Seq<Seq<char>>,
    namepath: Seq<char>,
    keys: Seq<Seq<char>>,
    written: Option<Seq<Seq<char>>>,
)
    requires
        forall|k: int| 0 <= k < keys.len() ==> !is_qualified(#[trigger] keys[k]),
        written matches Some(w) ==> forall|k: int|
            0 <= k < w.len() ==> !is_qualified(#[trigger] w[k]),
    ensures
        resolved_deps(deps, namepath, keys, written) == deps,
{
    let module = module_of(namepath);
    assert forall|name: Seq<char>| #[trigger] candidates(name, module, keys).len() == 0 by {
        if candidates(name, module, keys).len() > 0 {
            candidates_are_recipes(name, module, keys, 0);
            let path = candidates(name, module, keys)[0];
            let k = choose|k: int| 0 <= k < keys.len() && keys[k] == path;
            assert(!is_qualified(keys[k]));
        }
    }
    assert forall|i: int| 0 <= i < deps.len() implies #[trigger] resolved_deps(
        deps,
        namepath,
        keys,
        written,
    )[i] == deps[i] by {
        assert(candidates(deps[i], module, keys).len() == 0);
        lemma_rank(deps, i);
        let sibling = within(module, deps[i]);
        if module.len() > 0 && keys.contains(sibling) {
            let k = choose|k: int| 0 <= k < keys.len() && keys[k] == sibling;
            assert(separator_at(sibling, module.len() as int));
            assert(!is_qualified(keys[k]));
        }
    }
    assert(resolved_deps(deps, namepath, keys, written) =~= deps);
}

} // verus!
