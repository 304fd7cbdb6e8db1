//! What the command line asks for.

use crate::graph::not_found_message;
use crate::graph::not_found_text;
use crate::justfile::JustDump;
use crate::justfile::Parameter;
use crate::justfile::Recipe;
use crate::sequences::lemma_filter_keeps;
use crate::text::join;
use crate::text::joined;
use crate::text::to_chars;
use crate::text::views;
use vstd::prelude::*;

verus! {

/// Why there is no recipe to run
#[derive(Debug)]
pub enum TargetError {
    /// No recipe is asked for, and there is no default
    NoRecipe,
    /// The recipe is not in the justfile
    NotFound(String),
}

impl TargetError {
    /// The text of the error.
    pub open spec fn text(&self) -> Seq<char> {
        match self {
            TargetError::NoRecipe => "No recipe specified and no default recipe found"@,
            TargetError::NotFound(name) => not_found_text(name@),
        }
    }

    /// The text of the error
    pub fn to_string(&self) -> (r: String)
        ensures
            r@ == self.text(),
    {
        match self {
            TargetError::NoRecipe => "No recipe specified and no default recipe found".to_owned(),
            TargetError::NotFound(name) => not_found_message(name.as_str()),
        }
    }
}

/// The recipe to run: the one asked for, or else the default.
pub open spec fn wanted(recipe: Option<String>, dump: JustDump) -> Option<Seq<char>> {
    match (recipe, dump.first) {
        (Some(name), _) => Some(name@),
        (None, Some(name)) => Some(name@),
        (None, None) => None,
    }
}

/// Determine target recipe
pub fn choose_target(recipe: Option<String>, dump: &JustDump) -> (r: Result<String, TargetError>)
    ensures
        match r {
            Ok(name) => wanted(recipe, *dump) == Some(name@) && dump.has(name@),
            Err(TargetError::NoRecipe) => wanted(recipe, *dump) is None,
            Err(TargetError::NotFound(name)) => wanted(recipe, *dump) == Some(name@) && !dump.has(
                name@,
            ),
        },
{
    let target: String = match recipe {
        Some(name) => name,
        None => match dump.default_recipe() {
            Some(name) => name.to_owned(),
            None => {
                return Err(TargetError::NoRecipe);
            },
        },
    };
    // Verify recipe exists
    if dump.get_recipe(target.as_str()).is_some() {
        Ok(target)
    } else {
        Err(TargetError::NotFound(target))
    }
}

/// Whether a text comes before another one or is the same, by its characters.
pub open spec fn not_after(a: Seq<char>, b: Seq<char>) -> bool
    decreases a.len(),
{
    if a.len() == 0 {
        true
    } else if b.len() == 0 {
        false
    } else if a[0] == b[0] {
        not_after(a.drop_first(), b.drop_first())
    } else {
        a[0] < b[0]
    }
}

/// Whether a text comes before another one or is the same
fn is_not_after(a: &str, b: &str) -> (r: bool)
    ensures
        r == not_after(a@, b@),
{
    let x: Vec<char> = to_chars(a);
    let y: Vec<char> = to_chars(b);
    let mut i: usize = 0;
    assert(x@.skip(0) =~= x@);
    assert(y@.skip(0) =~= y@);
    while i < x.len() && i < y.len() && x[i] == y[i]
        invariant
            i <= x.len(),
            i <= y.len(),
            not_after(x@.skip(i as int), y@.skip(i as int)) == not_after(x@, y@),
        decreases x.len() - i,
    {
        assert(x@.skip(i as int).drop_first() =~= x@.skip(i + 1));
        assert(y@.skip(i as int).drop_first() =~= y@.skip(i + 1));
        i = i + 1;
    }
    i == x.len() || (i < y.len() && x[i] < y[i])
}

/// Names are compared: two that come not after each other are the same.
pub proof fn order_is_total(a: Seq<char>, b: Seq<char>)
    ensures
        not_after(a, b) || not_after(b, a),
        not_after(a, b) && not_after(b, a) ==> a == b,
    decreases a.len(),
{
    if a.len() > 0 && b.len() > 0 && a[0] == b[0] {
        order_is_total(a.drop_first(), b.drop_first());
        if not_after(a, b) && not_after(b, a) {
            assert(a =~= seq![a[0]] + a.drop_first());
            assert(b =~= seq![b[0]] + b.drop_first());
        }
    } else if a.len() == 0 && b.len() == 0 {
        assert(a =~= b);
    }
}

/// Names are ordered: the order passes on.
pub proof fn order_is_transitive(a: Seq<char>, b: Seq<char>, c: Seq<char>)
    requires
        not_after(a, b),
        not_after(b, c),
    ensures
        not_after(a, c),
    decreases a.len(),
{
    if a.len() > 0 && a[0] == b[0] && b[0] == c[0] {
        order_is_transitive(a.drop_first(), b.drop_first(), c.drop_first());
    }
}

/// Recipes in the order of their names, with one more put behind all those whose names do not
/// come after its own.
pub open spec fn put_in(sorted: Seq<Recipe>, recipe: Recipe) -> Seq<Recipe>
    decreases sorted.len(),
{
    if sorted.len() == 0 || not_after(sorted.last().name@, recipe.name@) {
        sorted.push(recipe)
    } else {
        put_in(sorted.drop_last(), recipe).push(sorted.last())
    }
}

/// Recipes in the order of their names. Those with the same name stay in the order they had.
pub open spec fn by_name(recipes: Seq<Recipe>) -> Seq<Recipe>
    decreases recipes.len(),
{
    if recipes.len() == 0 {
        Seq::empty()
    } else {
        put_in(by_name(recipes.drop_last()), recipes.last())
    }
}

/// A parameter as it is listed: in brackets where it has a default.
pub open spec fn listed_parameter(p: Parameter) -> Seq<char> {
    if p.default is Some {
        "["@ + p.name@ + "]"@
    } else {
        p.name@
    }
}

/// A recipe as it is listed: its name and its parameters.
pub open spec fn listed_recipe(r: Recipe) -> Seq<char> {
    if r.parameters@.len() == 0 {
        "    "@ + r.name@
    } else {
        "    "@ + r.name@ + " "@ + joined(
            r.parameters@.map_values(|p: Parameter| listed_parameter(p)),
            " "@,
        )
    }
}

/// The list of recipes.
pub open spec fn listing(dump: JustDump) -> Seq<Seq<char>> {
    seq!["Available recipes:"@] + by_name(
        dump.recipes.values().filter(|r: Recipe| !r.private),
    ).map_values(|r: Recipe| listed_recipe(r))
}

/// A recipe as it is listed
fn list_recipe(recipe: &Recipe) -> (r: String)
    ensures
        r@ == listed_recipe(*recipe),
{
    let mut r: String = "    ".to_owned();
    r.append(recipe.name.as_str());
    if recipe.parameters.len() > 0 {
        let ghost all = recipe.parameters@.map_values(|p: Parameter| listed_parameter(p));
        let mut params: Vec<String> = Vec::new();
        for i in 0..recipe.parameters.len()
            invariant
                all == recipe.parameters@.map_values(|p: Parameter| listed_parameter(p)),
                params@.len() == i,
                forall|j: int| 0 <= j < i ==> (#[trigger] params@[j])@ == all[j],
        {
            let p: &Parameter = &recipe.parameters[i];
            let text: String = if p.default.is_some() {
                let mut text: String = "[".to_owned();
                text.append(p.name.as_str());
                text.append("]");
                text
            } else {
                p.name.clone()
            };
            params.push(text);
        }
        assert(views(params@) =~= all);
        r.append(" ");
        r.append(join(&params, " ").as_str());
    }
    r
}

/// Put a recipe in its place among recipes in the order of their names
fn insert_by_name<'a>(sorted: &mut Vec<&'a Recipe>, recipe: &'a Recipe)
    ensures
        final(sorted)@.map_values(|p: &Recipe| *p) == put_in(
            old(sorted)@.map_values(|p: &Recipe| *p),
            *recipe,
        ),
{
    let ghost all = sorted@.map_values(|p: &Recipe| *p);
    let mut n: usize = sorted.len();
    assert(all.take(n as int) =~= all);
    assert(put_in(all.take(n as int), *recipe) + all.skip(n as int) =~= put_in(all, *recipe));
    while n > 0 && !is_not_after(sorted[n - 1].name.as_str(), recipe.name.as_str())
        invariant
            n <= sorted@.len(),
            all == sorted@.map_values(|p: &Recipe| *p),
            put_in(all.take(n as int), *recipe) + all.skip(n as int) == put_in(all, *recipe),
        decreases n,
    {
        let ghost front = all.take(n as int);
        assert(front.last() == all[n - 1]);
        assert(front.drop_last() =~= all.take(n - 1));
        assert(put_in(all.take(n - 1), *recipe) + all.skip(n - 1) =~= put_in(front, *recipe)
            + all.skip(n as int));
        n = n - 1;
    }
    assert(n > 0 ==> all.take(n as int).last() == all[n - 1]);
    sorted.insert(n, recipe);
    assert(sorted@.map_values(|p: &Recipe| *p) =~= all.take(n as int).push(*recipe) + all.skip(
        n as int,
    ));
}

/// The list of recipes, line by line
pub fn list_recipes(dump: &JustDump) -> (r: Vec<String>)
    ensures
        views(r@) == listing(*dump),
{
    let recipes: Vec<&Recipe> = dump.public_recipes();
    let ghost all = recipes@.map_values(|p: &Recipe| *p);
    let mut sorted: Vec<&Recipe> = Vec::new();
    assert(all.take(0) =~= Seq::<Recipe>::empty());
    assert(sorted@.map_values(|p: &Recipe| *p) =~= by_name(all.take(0)));
    for i in 0..recipes.len()
        invariant
            all == recipes@.map_values(|p: &Recipe| *p),
            sorted@.map_values(|p: &Recipe| *p) == by_name(all.take(i as int)),
    {
        assert(all.take(i + 1).drop_last() =~= all.take(i as int));
        assert(all.take(i + 1).last() == *recipes@[i as int]);
        insert_by_name(&mut sorted, recipes[i]);
    }
    assert(all.take(all.len() as int) =~= all);
    let ghost lines = by_name(all).map_values(|r: Recipe| listed_recipe(r));
    let mut r: Vec<String> = Vec::new();
    r.push("Available recipes:".to_owned());
    for i in 0..sorted.len()
        invariant
            sorted@.map_values(|p: &Recipe| *p) == by_name(all),
            lines == by_name(all).map_values(|r: Recipe| listed_recipe(r)),
            r@.len() == i + 1,
            r@[0]@ == "Available recipes:"@,
            forall|j: int| 0 <= j < i ==> (#[trigger] r@[j + 1])@ == lines[j],
    {
        assert(by_name(all)[i as int] == *sorted@[i as int]);
        let ghost before = r@;
        r.push(list_recipe(sorted[i]));
        assert forall|j: int| 0 <= j < i + 1 implies (#[trigger] r@[j + 1])@ == lines[j] by {
            if j < i {
                assert(r@[j + 1] == before[j + 1]);
            }
        }
    }
    assert(lines.len() == sorted@.len());
    assert forall|j: int| 0 <= j < r@.len() implies (#[trigger] r@[j])@ == listing(*dump)[j] by {
        if j > 0 {
            assert(r@[(j - 1) + 1]@ == lines[j - 1]);
        }
    }
    assert(views(r@) =~= listing(*dump));
    r
}

/// Recipes in the order of their names.
pub open spec fn is_sorted(recipes: Seq<Recipe>) -> bool {
    forall|i: int, j: int|
        0 <= i < j < recipes.len() ==> not_after(
            (#[trigger] recipes[i]).name@,
            (#[trigger] recipes[j]).name@,
        )
}

/// A recipe put in its place leaves the others sorted, and is the only one added.
proof fn lemma_put_in(sorted: Seq<Recipe>, recipe: Recipe)
    requires
        is_sorted(sorted),
    ensures
        is_sorted(put_in(sorted, recipe)),
        put_in(sorted, recipe).to_multiset() == sorted.to_multiset().insert(recipe),
    decreases sorted.len(),
{
    broadcast use vstd::seq_lib::group_to_multiset_ensures;

    let out = put_in(sorted, recipe);
    if sorted.len() == 0 {
        assert(out =~= sorted.push(recipe));
    } else {
        let last = sorted.last();
        let front = sorted.drop_last();
        order_is_total(last.name@, recipe.name@);
        if not_after(last.name@, recipe.name@) {
            assert forall|i: int, j: int| 0 <= i < j < out.len() implies not_after(
                (#[trigger] out[i]).name@,
                (#[trigger] out[j]).name@,
            ) by {
                if j == sorted.len() && i < sorted.len() - 1 {
                    assert(not_after(sorted[i].name@, sorted[sorted.len() - 1].name@));
                    order_is_transitive(sorted[i].name@, last.name@, recipe.name@);
                }
            }
        } else {
            lemma_put_in(front, recipe);
            let inner = put_in(front, recipe);
            assert(sorted =~= front.push(last));
            assert(sorted.to_multiset() =~= front.to_multiset().insert(last));
            assert(out.to_multiset() =~= sorted.to_multiset().insert(recipe));
            assert forall|i: int, j: int| 0 <= i < j < out.len() implies not_after(
                (#[trigger] out[i]).name@,
                (#[trigger] out[j]).name@,
            ) by {
                if j == out.len() - 1 {
                    let x = inner[i];
                    assert(inner.to_multiset().count(x) > 0);
                    if x != recipe {
                        assert(front.to_multiset().count(x) > 0);
                        let k = choose|k: int| 0 <= k < front.len() && front[k] == x;
                        assert(sorted[k] == x);
                        assert(not_after(sorted[k].name@, sorted[sorted.len() - 1].name@));
                    }
                } else {
                    assert(out[i] == inner[i]);
                    assert(out[j] == inner[j]);
                }
            }
        }
    }
}

/// Sorting recipes puts them in the order of their names, and adds and loses none.
pub proof fn recipes_are_sorted(recipes: Seq<Recipe>)
    ensures
        is_sorted(by_name(recipes)),
        by_name(recipes).to_multiset() == recipes.to_multiset(),
    decreases recipes.len(),
{
    broadcast use vstd::seq_lib::group_to_multiset_ensures;

    if recipes.len() > 0 {
        recipes_are_sorted(recipes.drop_last());
        lemma_put_in(by_name(recipes.drop_last()), recipes.last());
        assert(recipes =~= recipes.drop_last().push(recipes.last()));
    } else {
        assert(by_name(recipes) =~= recipes);
    }
}

/// The order of names is that of their first different characters, and a name comes before those
/// that it begins.
pub proof fn order_is_by_first_difference(a: Seq<char>, b: Seq<char>, k: int)
    requires
        0 <= k <= a.len(),
        k <= b.len(),
        forall|i: int| 0 <= i < k ==> a[i] == b[i],
        k < a.len() && k < b.len() ==> a[k] != b[k],
        k == a.len() || k == b.len() || a[k] != b[k],
    ensures
        k == a.len() ==> not_after(a, b),
        k < a.len() && k == b.len() ==> !not_after(a, b),
        k < a.len() && k < b.len() ==> (not_after(a, b) <==> a[k] < b[k]),
    decreases k,
{
    if k > 0 {
        let x = a.drop_first();
        let y = b.drop_first();
        assert forall|i: int| 0 <= i < k - 1 implies x[i] == y[i] by {
            assert(x[i] == a[i + 1]);
            assert(y[i] == b[i + 1]);
        }
        assert(k < a.len() ==> x[k - 1] == a[k]);
        assert(k < b.len() ==> y[k - 1] == b[k]);
        assert(a[0] == b[0]);
        order_is_by_first_difference(x, y, k - 1);
    }
}

/// The recipe that is asked for is wanted, and the default exactly where none is asked for.
pub proof fn asked_recipe_is_wanted(recipe: Option<String>, dump: JustDump)
    ensures
        recipe matches Some(name) ==> wanted(recipe, dump) == Some(name@),
        recipe is None ==> (dump.first matches Some(first) ==> wanted(recipe, dump) == Some(
            first@,
        )),
        recipe is None && dump.first is None ==> wanted(recipe, dump) is None,
{
}

/// The text of an error says that there is no recipe, or names the recipe.
pub proof fn target_errors_say_what_is_missing(name: String)
    ensures
        TargetError::NoRecipe.text() == "No recipe specified and no default recipe found"@,
        TargetError::NotFound(name).text() == "Recipe '"@ + name@ + "' not found"@,
{
}

/// A recipe is listed by its name, behind four spaces, and by all its parameters in order. Those
/// with a default stand in brackets.
pub proof fn recipes_are_listed_with_parameters(r: Recipe)
    ensures
        r.parameters@.len() == 0 ==> listed_recipe(r) == "    "@ + r.name@,
        r.parameters@.len() > 0 ==> exists|words: Seq<Seq<char>>|
            words.len() == r.parameters@.len() && (forall|i: int|
                0 <= i < words.len() ==> #[trigger] words[i] == if r.parameters@[i].default is
                    Some {
                    "["@ + r.parameters@[i].name@ + "]"@
                } else {
                    r.parameters@[i].name@
                }) && listed_recipe(r) == "    "@ + r.name@ + " "@ + #[trigger] joined(words, " "@),
{
    let words = r.parameters@.map_values(|p: Parameter| listed_parameter(p));
    assert(joined(words, " "@) == joined(words, " "@));
}

/// The recipes that a listing shows, in its order.
pub open spec fn is_shown_by(dump: JustDump, shown: Seq<Recipe>) -> bool {
    &&& listing(dump).len() == shown.len() + 1
    &&& forall|i: int|
        0 <= i < shown.len() ==> #[trigger] listing(dump)[i + 1] == listed_recipe(shown[i])
    &&& is_sorted(shown)
    &&& shown.to_multiset() == dump.recipes.values().filter(|r: Recipe| !r.private).to_multiset()
}

/// A listing has a title and one line for each public recipe of the justfile, in the order of
/// their names, and no line for a private one.
pub proof fn listing_shows_public_recipes(dump: JustDump)
    ensures
        listing(dump)[0] == "Available recipes:"@,
        exists|shown: Seq<Recipe>| #[trigger] is_shown_by(dump, shown),
        forall|i: int|
            0 <= i < dump.recipes.entries().len() && !(#[trigger] dump.recipes.entries()[i]).1.private
                ==> listing(dump).contains(listed_recipe(dump.recipes.entries()[i].1)),
{
    broadcast use vstd::seq_lib::group_to_multiset_ensures;

    let public = |r: Recipe| !r.private;
    let all = dump.recipes.values();
    let shown = by_name(all.filter(public));
    let lines = listing(dump);
    recipes_are_sorted(all.filter(public));
    assert forall|i: int| 0 <= i < shown.len() implies #[trigger] lines[i + 1] == listed_recipe(
        shown[i],
    ) by {}
    assert(is_shown_by(dump, shown));
    assert forall|i: int|
        0 <= i < dump.recipes.entries().len() && !(
        #[trigger] dump.recipes.entries()[i]).1.private implies lines.contains(
        listed_recipe(dump.recipes.entries()[i].1),
    ) by {
        let r = dump.recipes.entries()[i].1;
        assert(all[i] == r);
        assert(public(all[i]));
        lemma_filter_keeps(all, public, i);
        assert(all.filter(public).to_multiset().count(r) > 0);
        assert(shown.to_multiset().count(r) > 0);
        assert(shown.contains(r));
        let k = choose|k: int| 0 <= k < shown.len() && shown[k] == r;
        assert(lines[k + 1] == listed_recipe(r));
    }
}

} // verus!
