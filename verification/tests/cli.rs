use just_fancy::cli::choose_target;
use just_fancy::cli::list_recipes;
use just_fancy::cli::TargetError;
use just_fancy::justfile::JustDump;
use just_fancy::justfile::ModuleMap;
use just_fancy::justfile::Parameter;
use just_fancy::justfile::Recipe;
use just_fancy::name_map::NameMap;
use serde_json::Value;

fn recipe(name: &str, private: bool, parameters: &[(&str, bool)]) -> Recipe {
    Recipe {
        name: name.to_string(),
        namepath: name.to_string(),
        dependencies: Vec::new(),
        private,
        parameters: parameters
            .iter()
            .map(|p| Parameter {
                name: p.0.to_string(),
                default: if p.1 { Some(Value::from("x")) } else { None },
            })
            .collect(),
    }
}

fn dump(recipes: Vec<Recipe>, first: Option<&str>) -> JustDump {
    let mut map = NameMap::new();
    for (i, r) in recipes.into_iter().enumerate() {
        map.insert(format!("{}#{}", r.name, i), r);
    }
    JustDump { recipes: map, first: first.map(String::from), modules: ModuleMap::new(), source: None }
}

#[test]
fn recipes_are_listed_by_name() {
    let d = dump(
        vec![
            recipe("test", false, &[]),
            recipe("_hidden", true, &[]),
            recipe("deploy", false, &[("env", false), ("verbose", true)]),
            recipe("Build", false, &[]),
            recipe("tes", false, &[("a", true)]),
            recipe("test", false, &[("b", false)]),
        ],
        None,
    );
    assert_eq!(
        list_recipes(&d),
        vec![
            "Available recipes:",
            "    Build",
            "    deploy env [verbose]",
            "    tes [a]",
            "    test",
            "    test b",
        ]
    );
}

#[test]
fn names_are_sorted_as_strings_are() {
    let names = ["é", "z", "a", "ab", "", "aa", "Z", "✓", "\u{10000}", "\u{ffff}", "b::a", "b-a"];
    let d = dump(names.iter().map(|n| recipe(n, false, &[])).collect(), None);
    let mut expected: Vec<String> = names.iter().map(|n| n.to_string()).collect();
    expected.sort();
    let mut lines: Vec<String> = vec!["Available recipes:".to_string()];
    lines.extend(expected.iter().map(|n| format!("    {}", n)));
    assert_eq!(list_recipes(&d), lines);
}

#[test]
fn empty_justfile_lists_nothing() {
    assert_eq!(list_recipes(&dump(Vec::new(), None)), vec!["Available recipes:"]);
}

#[test]
fn target_is_the_recipe_or_the_default() {
    let mut d = dump(Vec::new(), Some("build"));
    d.recipes.insert("build".to_string(), recipe("build", false, &[]));
    d.recipes.insert("test".to_string(), recipe("test", false, &[]));
    assert_eq!(choose_target(Some("test".to_string()), &d).unwrap(), "test");
    assert_eq!(choose_target(None, &d).unwrap(), "build");

    let error = choose_target(Some("nope".to_string()), &d).unwrap_err();
    assert_eq!(error.to_string(), "Recipe 'nope' not found");
    assert!(matches!(error, TargetError::NotFound(_)));

    d.first = Some("gone".to_string());
    assert_eq!(choose_target(None, &d).unwrap_err().to_string(), "Recipe 'gone' not found");

    d.first = None;
    let error = choose_target(None, &d).unwrap_err();
    assert_eq!(error.to_string(), "No recipe specified and no default recipe found");
    assert!(matches!(error, TargetError::NoRecipe));
}
