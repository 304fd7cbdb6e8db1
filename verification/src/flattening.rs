//! What flattening keeps of a justfile and its modules.

use crate::justfile::deps_in_source;
use crate::justfile::is_resolved;
use crate::justfile::lemma_modules_shrink;
use crate::justfile::lemma_stored_all;
use crate::justfile::lemma_stored_last;
use crate::justfile::module_recipes;
use crate::justfile::module_sources;
use crate::justfile::named;
use crate::justfile::own_source;
use crate::justfile::source_of;
use crate::justfile::Dependency;
use crate::justfile::DumpError;
use crate::justfile::JustDump;
use crate::justfile::Recipe;
use crate::name_map::names_of;
use crate::name_map::value_at;
use crate::namepath::module_of;
use crate::namepath::within;
use crate::resolve::resolved_deps;
use crate::sequences::lemma_first_index;
use crate::source::written_deps;
use vstd::prelude::*;

verus! {

/// The module at the end of a path: each number is the position of a module in the one before.
pub open spec fn module_at(modules: Seq<(String, JustDump)>, path: Seq<int>) -> Option<JustDump>
    decreases path.len(),
{
    if path.len() == 0 || !(0 <= path[0] < modules.len()) {
        None
    } else if path.len() == 1 {
        Some(modules[path[0]].1)
    } else {
        module_at(modules[path[0]].1.modules.entries(), path.skip(1))
    }
}

/// The name path of the module at the end of a path.
pub open spec fn module_name(
    modules: Seq<(String, JustDump)>,
    path: Seq<int>,
    outer: Seq<char>,
) -> Seq<char>
    decreases path.len(),
{
    let inner = if outer.len() == 0 {
        modules[path[0]].0@
    } else {
        outer + "::"@ + modules[path[0]].0@
    };
    if path.len() <= 1 {
        inner
    } else {
        module_name(modules[path[0]].1.modules.entries(), path.skip(1), inner)
    }
}

/// The key of a recipe: its name path, or its name where it has none.
pub open spec fn key_of(r: Recipe) -> Seq<char> {
    if r.namepath@.len() == 0 {
        r.name@
    } else {
        r.namepath@
    }
}

/// `x` is the recipe `r`, with its key as name path.
pub open spec fn is_copy(x: Recipe, r: Recipe) -> bool {
    &&& x.name == r.name
    &&& x.namepath@ == key_of(r)
    &&& x.dependencies == r.dependencies
    &&& x.private == r.private
    &&& x.parameters == r.parameters
}

/// `x` is the recipe at a position in the module at the end of a path.
pub open spec fn is_of_module(
    modules: Seq<(String, JustDump)>,
    path: Seq<int>,
    k: int,
    x: Recipe,
) -> bool {
    module_at(modules, path) matches Some(d) && 0 <= k < d.recipes.entries().len() && is_copy(
        x,
        d.recipes.entries()[k].1,
    )
}

/// Removing the last module leaves the others where they are.
proof fn lemma_front(modules: Seq<(String, JustDump)>, path: Seq<int>, outer: Seq<char>)
    requires
        modules.len() > 0,
        path.len() > 0,
        0 <= path[0] < modules.len() - 1,
    ensures
        module_at(modules.drop_last(), path) == module_at(modules, path),
        module_name(modules.drop_last(), path, outer) == module_name(modules, path, outer),
{
    assert(modules.drop_last()[path[0]] == modules[path[0]]);
}

/// Every recipe of a module is collected.
proof fn lemma_collected(modules: Seq<(String, JustDump)>, path: Seq<int>, k: int) -> (i: int)
    requires
        module_at(modules, path) matches Some(d) && 0 <= k < d.recipes.entries().len(),
    ensures
        0 <= i < module_recipes(modules).len(),
        is_copy(
            module_recipes(modules)[i],
            module_at(modules, path).unwrap().recipes.entries()[k].1,
        ),
    decreases path.len(), modules.len(),
{
    let front = modules.drop_last();
    let last = modules.last().1;
    let a = module_recipes(front);
    let b = module_recipes(last.modules.entries());
    let c = last.recipes.values().map_values(|r: Recipe| named(r));
    assert(module_recipes(modules) == a + b + c);
    if path[0] < modules.len() - 1 {
        lemma_front(modules, path, Seq::empty());
        lemma_collected(front, path, k)
    } else if path.len() == 1 {
        assert(c[k] == named(last.recipes.entries()[k].1));
        a.len() + b.len() + k
    } else {
        let i = lemma_collected(last.modules.entries(), path.skip(1), k);
        a.len() + i
    }
}

/// What is collected is a recipe of a module.
proof fn lemma_origin(modules: Seq<(String, JustDump)>, i: int) -> (r: (Seq<int>, int))
    requires
        0 <= i < module_recipes(modules).len(),
    ensures
        is_of_module(modules, r.0, r.1, module_recipes(modules)[i]),
    decreases modules,
{
    let front = modules.drop_last();
    let last = modules.last().1;
    let a = module_recipes(front);
    let b = module_recipes(last.modules.entries());
    let c = last.recipes.values().map_values(|r: Recipe| named(r));
    assert(module_recipes(modules) == a + b + c);
    if i < a.len() {
        let (path, k) = lemma_origin(front, i);
        lemma_front(modules, path, Seq::empty());
        (path, k)
    } else if i < a.len() + b.len() {
        lemma_modules_shrink(modules);
        let (p, k) = lemma_origin(last.modules.entries(), i - a.len());
        let path = seq![modules.len() - 1] + p;
        assert(path.skip(1) =~= p);
        (path, k)
    } else {
        let k = i - a.len() - b.len();
        assert(c[k] == named(last.recipes.entries()[k].1));
        (seq![modules.len() - 1], k)
    }
}

/// The last position of a name path among recipes.
proof fn lemma_last_with(recipes: Seq<Recipe>, key: Seq<char>) -> (i: int)
    ensures
        -1 <= i < recipes.len(),
        i >= 0 ==> recipes[i].namepath@ == key,
        forall|j: int| i < j < recipes.len() ==> (#[trigger] recipes[j]).namepath@ != key,
    decreases recipes.len(),
{
    if recipes.len() == 0 {
        -1
    } else if recipes.last().namepath@ == key {
        recipes.len() - 1
    } else {
        let i = lemma_last_with(recipes.drop_last(), key);
        assert forall|j: int| i < j < recipes.len() implies (#[trigger] recipes[j]).namepath@
            != key by {
            if j < recipes.len() - 1 {
                assert(recipes.drop_last()[j] == recipes[j]);
            }
        }
        i
    }
}

/// Every recipe of every module, at any depth and whether private or not, stands in the flat
/// table under its key, and what stands there is a recipe of a module with that key, as it was.
pub proof fn every_module_recipe_is_flattened(dump: JustDump, path: Seq<int>, k: int)
    requires
        module_at(dump.modules.entries(), path) matches Some(d) && 0 <= k
            < d.recipes.entries().len(),
    ensures
        ({
            let key = key_of(
                module_at(dump.modules.entries(), path).unwrap().recipes.entries()[k].1,
            );
            &&& names_of(dump.flat_entries()).contains(key)
            &&& value_at(dump.flat_entries(), key) matches Some(x) && x.namepath@ == key && exists|
                p: Seq<int>,
                m: int,
            | #[trigger]
                is_of_module(dump.modules.entries(), p, m, x)
        }),
{
    let modules = dump.modules.entries();
    let root = dump.recipes.entries().map_values(|e: (String, Recipe)| (e.0, named(e.1)));
    let extra = module_recipes(modules);
    let key = key_of(module_at(modules, path).unwrap().recipes.entries()[k].1);
    let i = lemma_collected(modules, path, k);
    assert(extra[i].namepath@ == key);
    let last = lemma_last_with(extra, key);
    lemma_stored_all(root, extra);
    lemma_stored_last(root, extra, last);
    let (p, m) = lemma_origin(modules, last);
    assert(is_of_module(modules, p, m, extra[last]));
}

/// Every recipe in the flat table is a recipe of a module that has the key, or else the root
/// recipe that had the key, as it was.
pub proof fn flat_recipes_are_of_the_justfile(dump: JustDump, key: Seq<char>)
    requires
        names_of(dump.flat_entries()).contains(key),
    ensures
        value_at(dump.flat_entries(), key) matches Some(x) && ((x.namepath@ == key && exists|
            p: Seq<int>,
            m: int,
        | #[trigger]
            is_of_module(dump.modules.entries(), p, m, x)) || (dump.recipes.at(key) matches Some(r)
            && is_copy(x, r))),
{
    let modules = dump.modules.entries();
    let root = dump.recipes.entries().map_values(|e: (String, Recipe)| (e.0, named(e.1)));
    let extra = module_recipes(modules);
    assert(names_of(root) =~= dump.recipes.names());
    let last = lemma_last_with(extra, key);
    lemma_stored_all(root, extra);
    if last >= 0 {
        lemma_stored_last(root, extra, last);
        let (p, m) = lemma_origin(modules, last);
        assert(is_of_module(modules, p, m, extra[last]));
    } else {
        lemma_first_index(names_of(root), key);
    }
}

/// Every root recipe's key stays, and the recipe under it stays as it was, unless a recipe of a
/// module has the key.
pub proof fn every_root_recipe_is_kept(dump: JustDump, i: int)
    requires
        dump.recipes.wf(),
        0 <= i < dump.recipes.entries().len(),
    ensures
        ({
            let key = dump.recipes.entries()[i].0@;
            &&& names_of(dump.flat_entries()).contains(key)
            &&& value_at(dump.flat_entries(), key) matches Some(x) && (is_copy(
                x,
                dump.recipes.entries()[i].1,
            ) || (x.namepath@ == key && exists|p: Seq<int>, m: int| #[trigger]
                is_of_module(dump.modules.entries(), p, m, x)))
        }),
{
    let key = dump.recipes.entries()[i].0@;
    let root = dump.recipes.entries().map_values(|e: (String, Recipe)| (e.0, named(e.1)));
    let names = dump.recipes.names();
    assert(names_of(root) =~= names);
    assert(names[i] == key);
    assert(names.contains(key));
    lemma_stored_all(root, module_recipes(dump.modules.entries()));
    flat_recipes_are_of_the_justfile(dump, key);
    lemma_first_index(names, key);
    assert(dump.recipes.at(key) == Some(dump.recipes.entries()[i].1));
}

/// Resolving the dependencies of a recipe changes their names alone: the recipe keeps its name,
/// its name path, its privacy and its parameters, and each dependency its place and its
/// arguments. The names are resolved among all keys, by what the source of the recipe's module
/// writes.
pub proof fn resolving_changes_names_only(
    r: Recipe,
    out: Recipe,
    keys: Seq<Seq<char>>,
    sources: Seq<(String, Option<String>)>,
)
    requires
        is_resolved(r, out, keys, sources),
    ensures
        out.name == r.name,
        out.namepath == r.namepath,
        out.private == r.private,
        out.parameters == r.parameters,
        out.dependencies@.len() == r.dependencies@.len(),
        forall|j: int|
            0 <= j < r.dependencies@.len() ==> (#[trigger] out.dependencies@[j])._arguments
                == r.dependencies@[j]._arguments && out.dependencies@[j].recipe@ == resolved_deps(
                r.dependencies@.map_values(|d: Dependency| d.recipe@),
                r.namepath@,
                keys,
                deps_in_source(r, sources),
            )[j],
{
    assert(out.dep_names().len() == out.dependencies@.len());
    assert(r.dep_names().len() == r.dependencies@.len());
    assert(r.dep_names() =~= r.dependencies@.map_values(|d: Dependency| d.recipe@));
    assert forall|j: int| 0 <= j < r.dependencies@.len() implies out.dep_names()[j]
        == #[trigger] out.dependencies@[j].recipe@ by {}
}

/// The names of a recipe's dependencies are those that stand in it, in order.
pub proof fn dependency_names_stand_in_the_recipe(r: Recipe)
    ensures
        r.dep_names().len() == r.dependencies@.len(),
        forall|j: int|
            0 <= j < r.dependencies@.len() ==> #[trigger] r.dep_names()[j]
                == r.dependencies@[j].recipe@,
{
}

/// The source file of every module is listed, under the name path of the module.
proof fn lemma_listed(modules: Seq<(String, JustDump)>, path: Seq<int>, outer: Seq<char>)
    requires
        module_at(modules, path) matches Some(d) && d.source is Some,
    ensures
        module_sources(modules, outer).contains(
            (
                module_name(modules, path, outer),
                module_at(modules, path).unwrap().source.unwrap()@,
            ),
        ),
    decreases path.len(), modules.len(),
{
    reveal_strlit("::");
    let front = modules.drop_last();
    let last = modules.last();
    let inner = within(outer, last.0@);
    let a = module_sources(front, outer);
    let b = own_source(last.1, inner);
    let c = module_sources(last.1.modules.entries(), inner);
    let all = module_sources(modules, outer);
    assert(all == a + b + c);
    assert(outer + "::"@ + last.0@ =~= outer + crate::namepath::separator() + last.0@);
    let item = (
        module_name(modules, path, outer),
        module_at(modules, path).unwrap().source.unwrap()@,
    );
    if path[0] < modules.len() - 1 {
        lemma_front(modules, path, outer);
        lemma_listed(front, path, outer);
        let k = choose|k: int| 0 <= k < a.len() && a[k] == item;
        assert(all[k] == item);
    } else if path.len() == 1 {
        assert(all[a.len() as int] == item);
    } else {
        lemma_listed(last.1.modules.entries(), path.skip(1), inner);
        let k = choose|k: int| 0 <= k < c.len() && c[k] == item;
        assert(all[a.len() + b.len() + k] == item);
    }
}

proof fn lemma_listed_origin(modules: Seq<(String, JustDump)>, outer: Seq<char>, i: int) -> (path:
    Seq<int>)
    requires
        0 <= i < module_sources(modules, outer).len(),
    ensures
        path.len() > 0,
        module_at(modules, path) matches Some(d) && d.source matches Some(file)
            && module_sources(modules, outer)[i] == (module_name(modules, path, outer), file@),
    decreases modules,
{
    reveal_strlit("::");
    let front = modules.drop_last();
    let last = modules.last();
    let inner = within(outer, last.0@);
    let a = module_sources(front, outer);
    let b = own_source(last.1, inner);
    let c = module_sources(last.1.modules.entries(), inner);
    let all = module_sources(modules, outer);
    assert(all == a + b + c);
    assert(outer + "::"@ + last.0@ =~= outer + crate::namepath::separator() + last.0@);
    if i < a.len() {
        let path = lemma_listed_origin(front, outer, i);
        lemma_front(modules, path, outer);
        path
    } else if i < a.len() + b.len() {
        seq![modules.len() - 1]
    } else {
        lemma_modules_shrink(modules);
        let p = lemma_listed_origin(last.1.modules.entries(), inner, i - a.len() - b.len());
        let path = seq![modules.len() - 1] + p;
        assert(path.skip(1) =~= p);
        path
    }
}

/// The list of source files holds the file of the root, under the empty name.
pub proof fn root_source_is_listed(dump: JustDump)
    ensures
        dump.source matches Some(file) ==> dump.sources().contains(
            (Seq::<char>::empty(), file@),
        ),
{
    if let Some(file) = dump.source {
        assert(dump.sources()[0] == (Seq::<char>::empty(), file@));
    }
}

/// The list of source files holds the file of every module that has one, at any depth, under the
/// name path of the module.
pub proof fn every_module_source_is_listed(dump: JustDump, path: Seq<int>)
    requires
        module_at(dump.modules.entries(), path) matches Some(d) && d.source is Some,
    ensures
        dump.sources().contains(
            (
                module_name(dump.modules.entries(), path, Seq::empty()),
                module_at(dump.modules.entries(), path).unwrap().source.unwrap()@,
            ),
        ),
{
    let modules = dump.modules.entries();
    let own = own_source(dump, Seq::empty());
    let rest = module_sources(modules, Seq::empty());
    lemma_listed(modules, path, Seq::empty());
    let item = (
        module_name(modules, path, Seq::empty()),
        module_at(modules, path).unwrap().source.unwrap()@,
    );
    let k = choose|k: int| 0 <= k < rest.len() && rest[k] == item;
    assert(dump.sources()[own.len() + k] == item);
}

/// A listed file is that of a module.
pub open spec fn is_source_of(
    modules: Seq<(String, JustDump)>,
    path: Seq<int>,
    item: (Seq<char>, Seq<char>),
) -> bool {
    module_at(modules, path) matches Some(d) && d.source matches Some(file) && item == (
        module_name(modules, path, Seq::empty()),
        file@,
    )
}

/// The list of source files holds nothing but the files of the root and of modules.
pub proof fn only_sources_are_listed(dump: JustDump, i: int)
    requires
        0 <= i < dump.sources().len(),
    ensures
        (dump.source matches Some(file) && dump.sources()[i] == (Seq::<char>::empty(), file@))
            || exists|path: Seq<int>| #[trigger]
            is_source_of(dump.modules.entries(), path, dump.sources()[i]),
{
    let modules = dump.modules.entries();
    let own = own_source(dump, Seq::empty());
    if i >= own.len() {
        let path = lemma_listed_origin(modules, Seq::empty(), i - own.len());
        assert(is_source_of(modules, path, dump.sources()[i]));
    }
}

/// What a recipe's justfile writes is read in the source of the recipe's own module. The last
/// file that is given for the module counts.
pub proof fn own_source_is_read(r: Recipe, sources: Seq<(String, Option<String>)>, i: int)
    requires
        0 <= i < sources.len(),
        sources[i].0@ == module_of(r.namepath@),
        forall|j: int|
            i < j < sources.len() ==> (#[trigger] sources[j]).0@ != module_of(r.namepath@),
    ensures
        deps_in_source(r, sources) == match sources[i].1 {
            Some(content) => written_deps(content@, r.name@),
            None => None,
        },
{
    lemma_source_of(sources, module_of(r.namepath@), i);
}

proof fn lemma_source_of(sources: Seq<(String, Option<String>)>, module: Seq<char>, i: int)
    requires
        0 <= i < sources.len(),
        sources[i].0@ == module,
        forall|j: int| i < j < sources.len() ==> (#[trigger] sources[j]).0@ != module,
    ensures
        source_of(sources, module) == match sources[i].1 {
            Some(content) => Some(content@),
            None => None,
        },
    decreases sources.len(),
{
    if i < sources.len() - 1 {
        assert(sources[sources.len() - 1].0@ != module);
        lemma_source_of(sources.drop_last(), module, i);
    }
}

/// Without a source for the recipe's own module nothing is read.
pub proof fn other_sources_are_not_read(r: Recipe, sources: Seq<(String, Option<String>)>)
    requires
        forall|j: int|
            0 <= j < sources.len() ==> (#[trigger] sources[j]).0@ != module_of(r.namepath@),
    ensures
        deps_in_source(r, sources) is None,
    decreases sources.len(),
{
    if sources.len() > 0 {
        assert(sources[sources.len() - 1].0@ != module_of(r.namepath@));
        other_sources_are_not_read(r, sources.drop_last());
    }
}

/// The text of an error tells what `just` wrote, or that its output is no text.
pub proof fn dump_errors_tell_what_went_wrong(stderr: String)
    ensures
        DumpError::Failed(stderr).text() == "just --dump failed: "@ + stderr@,
        DumpError::InvalidUtf8.text() == "Invalid UTF-8 in just output"@,
{
}

} // verus!
