//! Justfiles, as `just --dump --dump-format=json` describes them.

use crate::name_map::lemma_stored;
use crate::name_map::names_of;
use crate::name_map::store_entry;
use crate::name_map::stored;
use crate::name_map::value_at;
use crate::name_map::NameMap;
use crate::namepath::module_of;
use crate::namepath::module_prefix;
use crate::namepath::qualify;
use crate::namepath::within;
use crate::resolve::resolve_deps;
use crate::resolve::resolved_deps;
use crate::sequences::lemma_first_index;
use crate::source::opt_views;
use crate::source::read_deps;
use crate::source::written_deps;
use crate::text::decode;
use crate::text::decode_lossy;
use crate::text::lossy_text;
use crate::text::views;
use vstd::prelude::*;
use vstd::utf8::*;

verus! {

/// `serde_json::Value`, a JSON value.
#[verifier::external_type_specification]
#[verifier::external_body]
pub struct ExValue(serde_json::Value);

/// Represents the full output of `just --dump --dump-format=json`
#[derive(Debug)]
pub struct JustDump {
    /// Map of recipe name to recipe definition
    pub recipes: NameMap<Recipe>,
    /// The first/default recipe (if any)
    pub first: Option<String>,
    /// Nested modules (submodule justfiles)
    pub modules: ModuleMap,
    /// Path to the source file for this module
    pub source: Option<String>,
}

/// The modules of a justfile, each under its name
#[derive(Debug)]
pub struct ModuleMap {
    /// The entries: a name and its module
    entries: Vec<(String, JustDump)>,
}

/// A recipe from the justfile
#[derive(Debug)]
pub struct Recipe {
    /// Recipe name
    pub name: String,
    /// Full namepath (e.g. `build::compile`); falls back to `name` for root recipes
    pub namepath: String,
    /// Dependencies that must run before this recipe
    pub dependencies: Vec<Dependency>,
    /// Whether this recipe is private (starts with _)
    pub private: bool,
    /// Parameters this recipe accepts
    pub parameters: Vec<Parameter>,
}

/// A dependency reference
#[derive(Debug, Clone)]
pub struct Dependency {
    /// Name of the recipe this depends on
    pub recipe: String,
    /// Arguments to pass to the dependency (not yet used)
    pub _arguments: Vec<serde_json::Value>,
}

/// A recipe parameter
#[derive(Debug)]
pub struct Parameter {
    /// Parameter name
    pub name: String,
    /// Default value (if any)
    pub default: Option<serde_json::Value>,
}

impl ModuleMap {
    /// The modules with their names, in the order of their first insertion.
    pub closed spec fn entries(&self) -> Seq<(String, JustDump)> {
        self.entries@
    }

    /// No name occurs twice.
    #[verifier::type_invariant]
    pub open spec fn wf(&self) -> bool {
        names_of(self.entries()).no_duplicates()
    }

    /// Create an empty map
    pub fn new() -> (r: Self)
        ensures
            r.entries() == Seq::<(String, JustDump)>::empty(),
            r.wf(),
    {
        ModuleMap { entries: Vec::new() }
    }

    /// The number of modules
    pub fn len(&self) -> (r: usize)
        ensures
            r == self.entries().len(),
    {
        self.entries.len()
    }

    /// Whether there are no modules
    pub fn is_empty(&self) -> (r: bool)
        ensures
            r == (self.entries().len() == 0),
    {
        self.entries.len() == 0
    }

    /// Store a module under a name
    pub fn insert(&mut self, name: String, module: JustDump)
        ensures
            final(self).entries() == stored(old(self).entries(), name, module),
            final(self).wf(),
    {
        proof {
            use_type_invariant(&*self);
            lemma_stored(self.entries(), name, module);
        }
        let mut entries: Vec<(String, JustDump)> = Vec::new();
        std::mem::swap(&mut self.entries, &mut entries);
        store_entry(&mut entries, name, module);
        self.entries = entries;
    }
}

/// Why the output of `just --dump` cannot be used
#[derive(Debug)]
pub enum DumpError {
    /// `just` failed, and wrote this to its standard error
    Failed(String),
    /// The output is no valid UTF-8
    InvalidUtf8,
}

impl DumpError {
    /// The text of the error.
    pub open spec fn text(&self) -> Seq<char> {
        match self {
            DumpError::Failed(stderr) => "just --dump failed: "@ + stderr@,
            DumpError::InvalidUtf8 => "Invalid UTF-8 in just output"@,
        }
    }

    /// The text of the error
    pub fn to_string(&self) -> (r: String)
        ensures
            r@ == self.text(),
    {
        match self {
            DumpError::Failed(stderr) => {
                let mut r: String = "just --dump failed: ".to_owned();
                r.append(stderr.as_str());
                r
            },
            DumpError::InvalidUtf8 => "Invalid UTF-8 in just output".to_owned(),
        }
    }
}

/// Get the JSON text from what `just --dump` has written
pub fn dump_text(success: bool, stdout: &[u8], stderr: &[u8]) -> (r: Result<String, DumpError>)
    ensures
        match r {
            Ok(json) => success && valid_utf8(stdout@) && json@ == decode_utf8(stdout@),
            Err(DumpError::Failed(text)) => !success && text@ == lossy_text(stderr@),
            Err(DumpError::InvalidUtf8) => success && !valid_utf8(stdout@),
        },
{
    if !success {
        return Err(DumpError::Failed(decode_lossy(stderr)));
    }
    match decode(stdout) {
        Some(json) => Ok(json.to_owned()),
        None => Err(DumpError::InvalidUtf8),
    }
}

/// A recipe with its name as name path, where it has none.
pub open spec fn named(r: Recipe) -> Recipe {
    if r.namepath@.len() == 0 {
        Recipe { namepath: r.name, ..r }
    } else {
        r
    }
}

/// All recipes of a list of modules: of each module those of its nested modules, then its own.
pub open spec fn module_recipes(modules: Seq<(String, JustDump)>) -> Seq<Recipe>
    decreases modules,
{
    if modules.len() == 0 {
        Seq::empty()
    } else {
        module_recipes(modules.drop_last()) + module_recipes(modules.last().1.modules.entries())
            + modules.last().1.recipes.values().map_values(|r: Recipe| named(r))
    }
}

/// The source file of the module `module`, where it has one.
pub open spec fn own_source(dump: JustDump, module: Seq<char>) -> Seq<(Seq<char>, Seq<char>)> {
    match dump.source {
        Some(path) => seq![(module, path@)],
        None => Seq::empty(),
    }
}

/// The source files of a list of modules within `outer`: each with the module that it describes.
pub open spec fn module_sources(modules: Seq<(String, JustDump)>, outer: Seq<char>) -> Seq<
    (Seq<char>, Seq<char>),
>
    decreases modules,
{
    if modules.len() == 0 {
        Seq::empty()
    } else {
        let inner = within(outer, modules.last().0@);
        module_sources(modules.drop_last(), outer) + own_source(modules.last().1, inner)
            + module_sources(modules.last().1.modules.entries(), inner)
    }
}

/// The content of the source file of a module, where the file could be read. Of two files for
/// one module the last counts.
pub open spec fn source_of(sources: Seq<(String, Option<String>)>, module: Seq<char>) -> Option<
    Seq<char>,
>
    decreases sources.len(),
{
    if sources.len() == 0 {
        None
    } else if sources.last().0@ == module {
        match sources.last().1 {
            Some(content) => Some(content@),
            None => None,
        }
    } else {
        source_of(sources.drop_last(), module)
    }
}

/// The dependencies of a recipe as its justfile writes them.
pub open spec fn deps_in_source(r: Recipe, sources: Seq<(String, Option<String>)>) -> Option<
    Seq<Seq<char>>,
> {
    match source_of(sources, module_of(r.namepath@)) {
        Some(content) => written_deps(content, r.name@),
        None => None,
    }
}

/// The entries after each of `recipes` was stored under its name path.
pub open spec fn stored_all(entries: Seq<(String, Recipe)>, recipes: Seq<Recipe>) -> Seq<
    (String, Recipe),
>
    decreases recipes.len(),
{
    if recipes.len() == 0 {
        entries
    } else {
        stored(stored_all(entries, recipes.drop_last()), recipes.last().namepath, recipes.last())
    }
}

/// `out` is the recipe `r` with its dependencies resolved to name paths among `keys`.
pub open spec fn is_resolved(
    r: Recipe,
    out: Recipe,
    keys: Seq<Seq<char>>,
    sources: Seq<(String, Option<String>)>,
) -> bool {
    &&& out.name == r.name
    &&& out.namepath == r.namepath
    &&& out.private == r.private
    &&& out.parameters == r.parameters
    &&& out.dep_names() == resolved_deps(
        r.dep_names(),
        r.namepath@,
        keys,
        deps_in_source(r, sources),
    )
    &&& forall|j: int|
        0 <= j < r.dependencies@.len() ==> (#[trigger] out.dependencies@[j])._arguments
            == r.dependencies@[j]._arguments
}

impl Recipe {
    /// The names of the recipes this recipe depends on.
    pub open spec fn dep_names(&self) -> Seq<Seq<char>> {
        self.dependencies@.map_values(|d: Dependency| d.recipe@)
    }
}

impl JustDump {
    /// The source files of the justfile and its modules: each with the module that it describes.
    pub open spec fn sources(&self) -> Seq<(Seq<char>, Seq<char>)> {
        own_source(*self, Seq::empty()) + module_sources(self.modules.entries(), Seq::empty())
    }

    /// The recipes of the justfile and all its modules, each under its key.
    pub open spec fn flat_entries(&self) -> Seq<(String, Recipe)> {
        stored_all(
            self.recipes.entries().map_values(|e: (String, Recipe)| (e.0, named(e.1))),
            module_recipes(self.modules.entries()),
        )
    }
}

/// The views of a list of pairs of strings.
pub open spec fn pair_views(v: Seq<(String, String)>) -> Seq<(Seq<char>, Seq<char>)> {
    v.map_values(|p: (String, String)| (p.0@, p.1@))
}

/// Give a recipe its name as name path, where it has none
fn with_namepath(recipe: Recipe) -> (r: Recipe)
    ensures
        r == named(recipe),
{
    if recipe.namepath.as_str().is_empty() {
        let namepath: String = recipe.name.clone();
        Recipe { namepath, ..recipe }
    } else {
        recipe
    }
}

impl JustDump {
    /// Recursively collect all recipes from a list of modules, returning them as a flat list.
    fn collect_module_recipes(modules: Vec<(String, JustDump)>) -> (r: Vec<Recipe>)
        ensures
            r@ == module_recipes(modules@),
        decreases modules@,
    {
        let ghost all = modules@;
        let mut result: Vec<Recipe> = Vec::new();
        assert(all.take(0) =~= Seq::<(String, JustDump)>::empty());
        for e in it: modules
            invariant
                it.seq() == all,
                all == modules@,
                result@ == module_recipes(all.take(it.index())),
        {
            let ghost k = it.index();
            assert(all.take(k + 1).drop_last() =~= all.take(k));
            assert(e == all[k]);
            assert(decreases_to!(all => all[k]));
            let (_, module) = e;
            let ghost own = module.recipes.values().map_values(|r: Recipe| named(r));
            let mut nested: Vec<Recipe> = Self::collect_module_recipes(module.modules.entries);
            result.append(&mut nested);
            let ghost mid = result@;
            let own_entries: Vec<(String, Recipe)> = module.recipes.into_entries();
            for x in jt: own_entries
                invariant
                    jt.seq() == module.recipes.entries(),
                    own == module.recipes.values().map_values(|r: Recipe| named(r)),
                    result@ == mid + own.take(jt.index()),
            {
                let ghost j = jt.index();
                let (_, recipe) = x;
                result.push(with_namepath(recipe));
                assert(own.take(j + 1) =~= own.take(j).push(own[j]));
            }
            assert(own.take(own.len() as int) =~= own);
        }
        assert(all.take(all.len() as int) =~= all);
        result
    }

    /// Add the source file of a module, where it has one
    fn push_source(&self, module: &str, paths: &mut Vec<(String, String)>)
        ensures
            pair_views(final(paths)@) == pair_views(old(paths)@) + own_source(*self, module@),
    {
        let ghost before = pair_views(paths@);
        if let Some(path) = &self.source {
            paths.push((module.to_owned(), path.clone()));
        }
        assert(pair_views(paths@) =~= before + own_source(*self, module@));
    }

    /// Recursively collect source file paths from a list of modules.
    /// The module for root is `""`, for module `app` it is `"app"`, etc.
    fn collect_source_paths_recursive(
        modules: &Vec<(String, JustDump)>,
        outer: &str,
        paths: &mut Vec<(String, String)>,
    )
        ensures
            pair_views(final(paths)@) == pair_views(old(paths)@) + module_sources(
                modules@,
                outer@,
            ),
        decreases modules@,
    {
        let ghost all = modules@;
        let ghost start = pair_views(paths@);
        assert(all.take(0) =~= Seq::<(String, JustDump)>::empty());
        assert(start + module_sources(all.take(0), outer@) =~= start);
        for i in 0..modules.len()
            invariant
                all == modules@,
                pair_views(paths@) == start + module_sources(all.take(i as int), outer@),
        {
            assert(all.take(i + 1).drop_last() =~= all.take(i as int));
            assert(decreases_to!(all => all[i as int]));
            let module: &(String, JustDump) = &modules[i];
            let inner: String = qualify(outer, module.0.as_str());
            module.1.push_source(inner.as_str(), paths);
            Self::collect_source_paths_recursive(&module.1.modules.entries, inner.as_str(), paths);
            assert(pair_views(paths@) =~= start + module_sources(all.take(i + 1), outer@));
        }
        assert(all.take(all.len() as int) =~= all);
    }

    /// The source files of the justfile and its modules, each with the module that it describes
    pub fn source_paths(&self) -> (r: Vec<(String, String)>)
        ensures
            pair_views(r@) == self.sources(),
    {
        let mut paths: Vec<(String, String)> = Vec::new();
        proof {
            reveal_strlit("");
            assert(""@ =~= Seq::<char>::empty());
        }
        assert(pair_views(paths@) =~= Seq::<(Seq<char>, Seq<char>)>::empty());
        self.push_source("", &mut paths);
        Self::collect_source_paths_recursive(&self.modules.entries, "", &mut paths);
        assert(pair_views(paths@) =~= self.sources());
        paths
    }

    /// Parse a justfile source to extract the qualified dependency names for a given recipe.
    /// Returns None if the recipe header can't be found.
    pub fn parse_deps_from_source(content: &str, recipe_name: &str) -> (r: Option<Vec<String>>)
        ensures
            opt_views(r) == written_deps(content@, recipe_name@),
    {
        read_deps(content, recipe_name)
    }

    /// The dependencies of a recipe as its justfile writes them
    fn source_deps(recipe: &Recipe, sources: &Vec<(String, Option<String>)>) -> (r: Option<
        Vec<String>,
    >)
        ensures
            opt_views(r) == deps_in_source(*recipe, sources@),
    {
        let module: String = module_prefix(recipe.namepath.as_str());
        let ghost all = sources@;
        let mut n: usize = sources.len();
        assert(all.take(n as int) =~= all);
        while n > 0
            invariant
                n <= sources.len(),
                all == sources@,
                module@ == module_of(recipe.namepath@),
                source_of(all.take(n as int), module@) == source_of(all, module@),
            decreases n,
        {
            assert(all.take(n as int).drop_last() =~= all.take(n - 1));
            assert(all.take(n as int).last() == all[n - 1]);
            if sources[n - 1].0 == module {
                return match &sources[n - 1].1 {
                    Some(content) => Self::parse_deps_from_source(
                        content.as_str(),
                        recipe.name.as_str(),
                    ),
                    None => None,
                };
            }
            n = n - 1;
        }
        None
    }

    /// Resolve the dependencies of a recipe
    fn resolve_recipe(
        recipe: Recipe,
        keys: &Vec<String>,
        sources: &Vec<(String, Option<String>)>,
    ) -> (r: Recipe)
        ensures
            is_resolved(recipe, r, views(keys@), sources@),
    {
        let written: Option<Vec<String>> = Self::source_deps(&recipe, sources);
        let mut names: Vec<String> = Vec::new();
        for i in 0..recipe.dependencies.len()
            invariant
                views(names@) == recipe.dep_names().take(i as int),
        {
            let ghost before = views(names@);
            names.push(recipe.dependencies[i].recipe.clone());
            assert(views(names@) =~= before.push(recipe.dep_names()[i as int]));
            assert(recipe.dep_names().take(i + 1) =~= recipe.dep_names().take(i as int).push(
                recipe.dep_names()[i as int],
            ));
        }
        assert(recipe.dep_names().take(recipe.dependencies@.len() as int)
            =~= recipe.dep_names());
        let resolved: Vec<String> = resolve_deps(&names, recipe.namepath.as_str(), keys, &written);
        assert(views(resolved@).len() == resolved@.len());
        let ghost old_deps = recipe.dependencies@;
        let mut dependencies: Vec<Dependency> = Vec::new();
        for d in it: recipe.dependencies
            invariant
                it.seq() == old_deps,
                resolved@.len() == old_deps.len(),
                dependencies@.len() == it.index(),
                forall|j: int|
                    0 <= j < it.index() ==> (#[trigger] dependencies@[j])._arguments
                        == old_deps[j]._arguments && dependencies@[j].recipe == resolved@[j],
        {
            let i: usize = dependencies.len();
            dependencies.push(
                Dependency { recipe: resolved[i].clone(), _arguments: d._arguments },
            );
        }
        let out: Recipe = Recipe {
            name: recipe.name,
            namepath: recipe.namepath,
            dependencies,
            private: recipe.private,
            parameters: recipe.parameters,
        };
        assert(out.dep_names() =~= views(resolved@));
        out
    }

    /// Flatten all module recipes into `self.recipes` keyed by namepath,
    /// and resolve short dependency names to full namepaths.
    ///
    /// `sources` holds for each module with a source file the content of that file, where it
    /// could be read. After this call, `self.modules` is cleared.
    pub fn flatten_modules(&mut self, sources: &Vec<(String, Option<String>)>)
        ensures
            final(self).first == old(self).first,
            final(self).source == old(self).source,
            final(self).modules.entries().len() == 0,
            final(self).recipes.wf(),
            final(self).recipes.names() == names_of(old(self).flat_entries()),
            forall|i: int|
                0 <= i < old(self).flat_entries().len() ==> is_resolved(
                    old(self).flat_entries()[i].1,
                    (#[trigger] final(self).recipes.entries()[i]).1,
                    names_of(old(self).flat_entries()),
                    sources@,
                ),
    {
        let ghost flat = self.flat_entries();
        let ghost root = self.recipes.entries().map_values(
            |e: (String, Recipe)| (e.0, named(e.1)),
        );
        proof {
            use_type_invariant(&self.recipes);
            flat_keys_are_distinct(*self);
        }
        let mut modules: ModuleMap = ModuleMap::new();
        std::mem::swap(&mut self.modules, &mut modules);
        let mut recipes: NameMap<Recipe> = NameMap::new();
        std::mem::swap(&mut self.recipes, &mut recipes);

        // Ensure root recipes have namepath set (fallback to name)
        let mut table: NameMap<Recipe> = NameMap::new();
        assert(names_of(root) =~= recipes.names());
        let root_entries: Vec<(String, Recipe)> = recipes.into_entries();
        for e in it: root_entries
            invariant
                it.seq() == recipes.entries(),
                root == recipes.entries().map_values(|e: (String, Recipe)| (e.0, named(e.1))),
                names_of(root).no_duplicates(),
                table.entries() == root.take(it.index()),
        {
            let ghost k = it.index();
            let (key, recipe) = e;
            proof {
                lemma_stored_new(root, k);
            }
            table.insert(key, with_namepath(recipe));
        }
        assert(root.take(root.len() as int) =~= root);

        // Recursively collect all module recipes
        let collected: Vec<Recipe> = Self::collect_module_recipes(modules.entries);
        let ghost extra = collected@;
        assert(extra.take(0) =~= Seq::<Recipe>::empty());
        for recipe in it: collected
            invariant
                it.seq() == extra,
                table.entries() == stored_all(root, extra.take(it.index())),
        {
            let ghost k = it.index();
            assert(extra.take(k + 1).drop_last() =~= extra.take(k));
            table.insert(recipe.namepath.clone(), recipe);
        }
        assert(extra.take(extra.len() as int) =~= extra);
        assert(table.entries() == flat);

        // Resolve short dependency names to full namepaths
        let mut keys: Vec<String> = Vec::new();
        let n: usize = table.len();
        for i in 0..n
            invariant
                n == table.names().len(),
                table.entries() == flat,
                views(keys@) == names_of(flat).take(i as int),
        {
            let ghost before = views(keys@);
            keys.push(table.entry(i).0.clone());
            assert(views(keys@) =~= before.push(names_of(flat)[i as int]));
            assert(names_of(flat).take(i + 1) =~= names_of(flat).take(i as int).push(
                names_of(flat)[i as int],
            ));
        }
        assert(names_of(flat).take(flat.len() as int) =~= names_of(flat));
        let flat_entries: Vec<(String, Recipe)> = table.into_entries();
        for e in it: flat_entries
            invariant
                it.seq() == flat,
                names_of(flat).no_duplicates(),
                views(keys@) == names_of(flat),
                self.recipes.entries().len() == it.index(),
                forall|j: int|
                    0 <= j < it.index() ==> (#[trigger] self.recipes.entries()[j]).0 == flat[j].0
                        && is_resolved(
                        flat[j].1,
                        self.recipes.entries()[j].1,
                        names_of(flat),
                        sources@,
                    ),
                self.first == old(self).first,
                self.source == old(self).source,
                self.modules.entries().len() == 0,
        {
            let ghost k = it.index();
            let ghost before = self.recipes.entries();
            let (key, recipe) = e;
            proof {
                assert(names_of(flat)[k] == key@);
                if names_of(before).contains(key@) {
                    let j = choose|j: int| 0 <= j < before.len() && names_of(before)[j] == key@;
                    assert(before[j].0 == flat[j].0);
                    assert(names_of(flat)[j] == key@);
                }
            }
            let resolved: Recipe = Self::resolve_recipe(recipe, &keys, sources);
            self.recipes.insert(key, resolved);
            assert(self.recipes.entries() == before.push((key, resolved)));
        }
        assert(self.recipes.names() =~= names_of(flat));
        proof {
            use_type_invariant(&self.recipes);
        }
    }

    /// Get the default recipe to run
    pub fn default_recipe(&self) -> (r: Option<&str>)
        ensures
            match r {
                Some(name) => self.first matches Some(first) && name@ == first@,
                None => self.first is None,
            },
    {
        match &self.first {
            Some(first) => Some(first.as_str()),
            None => None,
        }
    }

    /// Get a recipe by name
    pub fn get_recipe(&self, name: &str) -> (r: Option<&Recipe>)
        ensures
            match r {
                Some(recipe) => self.recipes.at(name@) == Some(*recipe),
                None => self.recipes.at(name@) is None,
            },
    {
        self.recipes.get(name)
    }

    /// List all public recipes
    pub fn public_recipes(&self) -> (r: Vec<&Recipe>)
        ensures
            r@.map_values(|p: &Recipe| *p) == self.recipes.values().filter(
                |p: Recipe| !p.private,
            ),
    {
        let ghost all = self.recipes.values();
        let ghost pred = |p: Recipe| !p.private;
        let mut r: Vec<&Recipe> = Vec::new();
        assert(all.take(0) =~= Seq::<Recipe>::empty());
        let n: usize = self.recipes.len();
        for i in 0..n
            invariant
                n == self.recipes.names().len(),
                all == self.recipes.values(),
                pred == (|p: Recipe| !p.private),
                r@.map_values(|p: &Recipe| *p) == all.take(i as int).filter(pred),
        {
            reveal(Seq::filter);
            assert(all.take(i + 1).drop_last() =~= all.take(i as int));
            let recipe: &Recipe = &self.recipes.entry(i).1;
            assert(all[i as int] == *recipe);
            let ghost before = r@.map_values(|p: &Recipe| *p);
            if !recipe.private {
                r.push(recipe);
                assert(r@.map_values(|p: &Recipe| *p) =~= before.push(*recipe));
            }
        }
        assert(all.take(all.len() as int) =~= all);
        r
    }
}

impl Recipe {
    /// Get the names of recipes this recipe depends on
    pub fn dependency_names(&self) -> (r: Vec<&str>)
        ensures
            r@.map_values(|s: &str| s@) == self.dep_names(),
    {
        let mut r: Vec<&str> = Vec::new();
        for i in 0..self.dependencies.len()
            invariant
                r@.map_values(|s: &str| s@) == self.dep_names().take(i as int),
        {
            let ghost before = r@.map_values(|s: &str| s@);
            r.push(self.dependencies[i].recipe.as_str());
            assert(r@.map_values(|s: &str| s@) =~= before.push(self.dep_names()[i as int]));
            assert(self.dep_names().take(i + 1) =~= self.dep_names().take(i as int).push(
                self.dep_names()[i as int],
            ));
        }
        assert(self.dep_names().take(self.dependencies@.len() as int) =~= self.dep_names());
        r
    }

    /// Check if this recipe has required parameters (no default value)
    pub fn has_required_params(&self) -> (r: bool)
        ensures
            r == exists|i: int|
                0 <= i < self.parameters@.len() && (#[trigger] self.parameters@[i]).default is None,
    {
        for i in 0..self.parameters.len()
            invariant
                forall|j: int|
                    0 <= j < i ==> (#[trigger] self.parameters@[j]).default is Some,
        {
            if self.parameters[i].default.is_none() {
                return true;
            }
        }
        false
    }
}

/// The modules within a module of a list are smaller than the list.
pub proof fn lemma_modules_shrink(modules: Seq<(String, JustDump)>)
    requires
        modules.len() > 0,
    ensures
        decreases_to!(modules => modules.last().1.modules.entries()),
{
    assert(decreases_to!(modules => modules[modules.len() - 1]));
}

/// Storing the entry behind some entries with other names adds it at the end.
proof fn lemma_stored_new(entries: Seq<(String, Recipe)>, k: int)
    requires
        names_of(entries).no_duplicates(),
        0 <= k < entries.len(),
    ensures
        stored(entries.take(k), entries[k].0, entries[k].1) == entries.take(k + 1),
{
    let before = entries.take(k);
    let name = entries[k].0@;
    assert(names_of(entries)[k] == name);
    if names_of(before).contains(name) {
        let j = choose|j: int| 0 <= j < before.len() && names_of(before)[j] == name;
        assert(names_of(entries)[j] == name);
    }
    assert(entries.take(k + 1) =~= before.push(entries[k]));
}

/// Storing recipes keeps the keys apart, keeps every key, and adds the name path of each recipe.
pub proof fn lemma_stored_all(entries: Seq<(String, Recipe)>, recipes: Seq<Recipe>)
    ensures
        names_of(entries).no_duplicates() ==> names_of(
            stored_all(entries, recipes),
        ).no_duplicates(),
        forall|key: Seq<char>| #[trigger]
            names_of(stored_all(entries, recipes)).contains(key) <==> names_of(entries).contains(
                key,
            ) || exists|i: int| 0 <= i < recipes.len() && (#[trigger] recipes[i]).namepath@ == key,
        forall|key: Seq<char>|
            (forall|i: int| 0 <= i < recipes.len() ==> (#[trigger] recipes[i]).namepath@ != key)
                ==> #[trigger] value_at(stored_all(entries, recipes), key) == value_at(
                entries,
                key,
            ),
    decreases recipes.len(),
{
    if recipes.len() > 0 {
        let t = recipes.drop_last();
        let last = recipes.last();
        lemma_stored_all(entries, t);
        lemma_stored(stored_all(entries, t), last.namepath, last);
        assert(recipes[recipes.len() - 1] == last);
        assert(forall|i: int| 0 <= i < t.len() ==> t[i] == recipes[i]);
        assert forall|key: Seq<char>| #[trigger]
            names_of(stored_all(entries, recipes)).contains(key) <==> names_of(entries).contains(
                key,
            ) || exists|i: int| 0 <= i < recipes.len() && (#[trigger] recipes[i]).namepath@
            == key by {
            if exists|i: int| 0 <= i < recipes.len() && (#[trigger] recipes[i]).namepath@ == key {
                let i = choose|i: int|
                    0 <= i < recipes.len() && (#[trigger] recipes[i]).namepath@ == key;
                if i < t.len() {
                    assert(t[i].namepath@ == key);
                }
            }
            if exists|i: int| 0 <= i < t.len() && (#[trigger] t[i]).namepath@ == key {
                let i = choose|i: int| 0 <= i < t.len() && (#[trigger] t[i]).namepath@ == key;
                assert(recipes[i].namepath@ == key);
            }
        }
    }
}

/// Flattening keeps every root key and makes every module recipe available under its name path;
/// there are no other keys.
pub proof fn flat_keys(dump: JustDump, key: Seq<char>)
    ensures
        names_of(dump.flat_entries()).contains(key) <==> dump.recipes.names().contains(key)
            || exists|i: int|
            0 <= i < module_recipes(dump.modules.entries()).len() && (#[trigger] module_recipes(
                dump.modules.entries(),
            )[i]).namepath@ == key,
{
    let root = dump.recipes.entries().map_values(|e: (String, Recipe)| (e.0, named(e.1)));
    assert(names_of(root) =~= dump.recipes.names());
    lemma_stored_all(root, module_recipes(dump.modules.entries()));
}

/// Flattening keeps the keys apart.
pub proof fn flat_keys_are_distinct(dump: JustDump)
    requires
        dump.recipes.wf(),
    ensures
        names_of(dump.flat_entries()).no_duplicates(),
{
    let root = dump.recipes.entries().map_values(|e: (String, Recipe)| (e.0, named(e.1)));
    assert(names_of(root) =~= dump.recipes.names());
    lemma_stored_all(root, module_recipes(dump.modules.entries()));
}

/// A module recipe whose name path no other module recipe has stands under its name path.
pub proof fn module_recipe_is_found(dump: JustDump, i: int)
    requires
        0 <= i < module_recipes(dump.modules.entries()).len(),
        forall|j: int|
            0 <= j < module_recipes(dump.modules.entries()).len() && j != i ==> (#[trigger] module_recipes(
                dump.modules.entries(),
            )[j]).namepath@ != module_recipes(dump.modules.entries())[i].namepath@,
    ensures
        value_at(dump.flat_entries(), module_recipes(dump.modules.entries())[i].namepath@) == Some(
            module_recipes(dump.modules.entries())[i],
        ),
{
    let root = dump.recipes.entries().map_values(|e: (String, Recipe)| (e.0, named(e.1)));
    lemma_stored_last(root, module_recipes(dump.modules.entries()), i);
}

/// The last of the recipes with a name path stands under that name path.
pub proof fn lemma_stored_last(entries: Seq<(String, Recipe)>, recipes: Seq<Recipe>, i: int)
    requires
        0 <= i < recipes.len(),
        forall|j: int|
            i < j < recipes.len() ==> (#[trigger] recipes[j]).namepath@ != recipes[i].namepath@,
    ensures
        value_at(stored_all(entries, recipes), recipes[i].namepath@) == Some(recipes[i]),
    decreases recipes.len(),
{
    let t = recipes.drop_last();
    let last = recipes.last();
    lemma_stored(stored_all(entries, t), last.namepath, last);
    if i < t.len() {
        lemma_stored_last(entries, t, i);
        assert(recipes[recipes.len() - 1] == last);
    }
}

/// A root recipe whose key is the name path of no module recipe stays under its key.
pub proof fn root_recipe_is_kept(dump: JustDump, key: Seq<char>)
    requires
        forall|i: int|
            0 <= i < module_recipes(dump.modules.entries()).len() ==> (#[trigger] module_recipes(
                dump.modules.entries(),
            )[i]).namepath@ != key,
    ensures
        value_at(dump.flat_entries(), key) == match dump.recipes.at(key) {
            Some(r) => Some(named(r)),
            None => None,
        },
{
    let root = dump.recipes.entries().map_values(|e: (String, Recipe)| (e.0, named(e.1)));
    assert(names_of(root) =~= dump.recipes.names());
    lemma_first_index(names_of(root), key);
    lemma_stored_all(root, module_recipes(dump.modules.entries()));
}

} // verus!
