use just_fancy::graph::GraphError;
use just_fancy::graph::RecipeGraph;
use just_fancy::justfile::Dependency;
use just_fancy::justfile::JustDump;
use just_fancy::justfile::ModuleMap;
use just_fancy::justfile::Parameter;
use just_fancy::justfile::Recipe;
use just_fancy::name_map::NameMap;
use serde_json::Value;

fn text(v: &Value) -> String {
    v.as_str().unwrap_or("").to_string()
}

fn optional(v: &Value) -> Option<Value> {
    if v.is_null() {
        None
    } else {
        Some(v.clone())
    }
}

fn list(v: &Value) -> Vec<Value> {
    v.as_array().cloned().unwrap_or_default()
}

fn to_recipe(v: &Value) -> Recipe {
    Recipe {
        name: text(&v["name"]),
        namepath: text(&v["namepath"]),
        dependencies: list(&v["dependencies"])
            .iter()
            .map(|d| Dependency { recipe: text(&d["recipe"]), _arguments: list(&d["arguments"]) })
            .collect(),
        private: v["private"].as_bool().unwrap_or(false),
        parameters: list(&v["parameters"])
            .iter()
            .map(|p| Parameter { name: text(&p["name"]), default: optional(&p["default"]) })
            .collect(),
    }
}

fn to_dump(v: &Value) -> JustDump {
    let mut recipes = NameMap::new();
    for (key, recipe) in v["recipes"].as_object().unwrap() {
        recipes.insert(key.clone(), to_recipe(recipe));
    }
    let mut modules = ModuleMap::new();
    if let Some(inner) = v["modules"].as_object() {
        for (key, module) in inner {
            modules.insert(key.clone(), to_dump(module));
        }
    }
    JustDump {
        recipes,
        first: v["first"].as_str().map(String::from),
        modules,
        source: v["source"].as_str().map(String::from),
    }
}

fn parse(json: &str) -> JustDump {
    let value: Value = serde_json::from_str(json).unwrap();
    to_dump(&value)
}

/// Flatten with the given files, each a path and a content; all others cannot be read.
fn flatten(dump: &mut JustDump, files: &[(&str, &str)]) {
    let sources: Vec<(String, Option<String>)> = dump
        .source_paths()
        .into_iter()
        .map(|(module, path)| {
            let content = files.iter().find(|f| f.0 == path).map(|f| f.1.to_string());
            (module, content)
        })
        .collect();
    dump.flatten_modules(&sources);
}

fn make_recipe(name: &str, deps: &[&str]) -> Recipe {
    Recipe {
        name: name.to_string(),
        namepath: name.to_string(),
        dependencies: deps
            .iter()
            .map(|d| Dependency {
                recipe: d.to_string(),
                _arguments: vec![],
            })
            .collect(),
        private: false,
        parameters: vec![],
    }
}

fn make_dump(recipes: Vec<Recipe>, first: Option<&str>) -> JustDump {
    let mut map = NameMap::new();
    for r in recipes {
        map.insert(r.name.clone(), r);
    }
    JustDump {
        recipes: map,
        first: first.map(String::from),
        modules: ModuleMap::new(),
        source: None,
    }
}

fn modules_dump() -> JustDump {
    let mut dump: JustDump = parse(
        r#"{
        "aliases": {},
        "assignments": {},
        "first": "all",
        "doc": null,
        "groups": [],
        "modules": {
            "build": {
                "aliases": {}, "assignments": {}, "first": "compile",
                "doc": null, "groups": [], "modules": {},
                "recipes": {
                    "compile": {
                        "attributes": [], "body": [],
                        "dependencies": [{"arguments": [], "recipe": "generate"}],
                        "doc": null, "name": "compile", "namepath": "build::compile",
                        "parameters": [], "priors": 1,
                        "private": false, "quiet": false, "shebang": false
                    },
                    "generate": {
                        "attributes": [], "body": [],
                        "dependencies": [],
                        "doc": null, "name": "generate", "namepath": "build::generate",
                        "parameters": [], "priors": 0,
                        "private": false, "quiet": false, "shebang": false
                    }
                },
                "settings": {}, "source": "build.just",
                "unexports": [], "warnings": []
            },
            "test": {
                "aliases": {}, "assignments": {}, "first": "unit",
                "doc": null, "groups": [], "modules": {},
                "recipes": {
                    "unit": {
                        "attributes": [], "body": [],
                        "dependencies": [],
                        "doc": null, "name": "unit", "namepath": "test::unit",
                        "parameters": [], "priors": 0,
                        "private": false, "quiet": false, "shebang": false
                    },
                    "integration": {
                        "attributes": [], "body": [],
                        "dependencies": [],
                        "doc": null, "name": "integration", "namepath": "test::integration",
                        "parameters": [], "priors": 0,
                        "private": false, "quiet": false, "shebang": false
                    }
                },
                "settings": {}, "source": "test.just",
                "unexports": [], "warnings": []
            }
        },
        "recipes": {
            "all": {
                "attributes": [], "body": [],
                "dependencies": [
                    {"arguments": [], "recipe": "compile"},
                    {"arguments": [], "recipe": "unit"}
                ],
                "doc": null, "name": "all", "namepath": "all",
                "parameters": [], "priors": 2,
                "private": false, "quiet": false, "shebang": false
            },
            "hello": {
                "attributes": [], "body": [],
                "dependencies": [],
                "doc": null, "name": "hello", "namepath": "hello",
                "parameters": [], "priors": 0,
                "private": false, "quiet": false, "shebang": false
            }
        },
        "settings": {}, "source": "justfile",
        "unexports": [], "warnings": []
    }"#,
    );
    flatten(&mut dump, &[]);
    dump
}

#[test]
fn test_simple_graph() {
    let dump = make_dump(
        vec![make_recipe("a", &[]), make_recipe("b", &["a"])],
        Some("b"),
    );

    let graph = RecipeGraph::build(&dump, "b").unwrap();
    let order = graph.execution_order().unwrap();
    assert_eq!(order.len(), 2);
    assert_eq!(order, vec!["a", "b"]);
}

#[test]
fn test_diamond_dependency() {
    // Diamond: d depends on b and c, both depend on a
    let dump = make_dump(
        vec![
            make_recipe("a", &[]),
            make_recipe("b", &["a"]),
            make_recipe("c", &["a"]),
            make_recipe("d", &["b", "c"]),
        ],
        Some("d"),
    );

    let graph = RecipeGraph::build(&dump, "d").unwrap();
    let order = graph.execution_order().unwrap();
    assert_eq!(order.len(), 4);
    // a must come first, d must come last
    assert_eq!(order[0], "a");
    assert_eq!(order[3], "d");
}

#[test]
fn test_dependencies_of() {
    let dump = make_dump(
        vec![
            make_recipe("a", &[]),
            make_recipe("b", &["a"]),
            make_recipe("c", &["a", "b"]),
        ],
        Some("c"),
    );

    let graph = RecipeGraph::build(&dump, "c").unwrap();

    assert_eq!(graph.dependencies_of("a"), Vec::<String>::new());
    assert_eq!(graph.dependencies_of("b"), vec!["a"]);

    let c_deps = graph.dependencies_of("c");
    assert!(c_deps.contains(&"a".to_string()));
    assert!(c_deps.contains(&"b".to_string()));
}

#[test]
fn test_missing_recipe_error() {
    let dump = make_dump(vec![make_recipe("a", &[])], Some("a"));

    let result = RecipeGraph::build(&dump, "nonexistent");
    assert!(result.is_err());
    assert!(result.unwrap_err().to_string().contains("not found"));
}

#[test]
fn test_single_recipe_no_deps() {
    let dump = make_dump(vec![make_recipe("solo", &[])], Some("solo"));

    let graph = RecipeGraph::build(&dump, "solo").unwrap();
    let order = graph.execution_order().unwrap();
    assert_eq!(order.len(), 1);
    assert_eq!(order, vec!["solo"]);
}

#[test]
fn test_build_graph_for_root_recipe_with_cross_module_deps() {
    let dump = modules_dump();

    let graph = RecipeGraph::build(&dump, "all").unwrap();
    let order = graph.execution_order().unwrap();

    // all four recipes required: all, build::compile, build::generate, test::unit
    assert_eq!(order.len(), 4);

    // `all` must come last
    assert_eq!(order.last().unwrap(), "all");

    // `build::generate` must precede `build::compile`
    let pos_generate = order.iter().position(|n| n == "build::generate").unwrap();
    let pos_compile = order.iter().position(|n| n == "build::compile").unwrap();
    assert!(
        pos_generate < pos_compile,
        "build::generate must run before build::compile"
    );
}

#[test]
fn test_build_graph_targeting_module_recipe_directly() {
    let dump = modules_dump();

    let graph = RecipeGraph::build(&dump, "build::compile").unwrap();
    let order = graph.execution_order().unwrap();

    assert_eq!(order.len(), 2);
    assert_eq!(order[0], "build::generate");
    assert_eq!(order[1], "build::compile");
}

#[test]
fn test_build_graph_targeting_leaf_module_recipe() {
    let dump = modules_dump();

    let graph = RecipeGraph::build(&dump, "test::unit").unwrap();
    let order = graph.execution_order().unwrap();

    assert_eq!(order.len(), 1);
    assert_eq!(order[0], "test::unit");
}

#[test]
fn test_build_graph_duplicate_cross_module_deps() {
    let mut dump: JustDump = parse(
        r#"{
        "first": "check",
        "modules": {
            "core": {
                "first": "check", "modules": {},
                "recipes": {
                    "test": {
                        "name": "test", "namepath": "core::test",
                        "dependencies": [], "parameters": [],
                        "private": false
                    },
                    "check": {
                        "name": "check", "namepath": "core::check",
                        "dependencies": [{"arguments": [], "recipe": "test"}],
                        "parameters": [], "private": false
                    }
                }
            },
            "app": {
                "first": "check", "modules": {},
                "recipes": {
                    "lint": {
                        "name": "lint", "namepath": "app::lint",
                        "dependencies": [], "parameters": [],
                        "private": false
                    },
                    "check": {
                        "name": "check", "namepath": "app::check",
                        "dependencies": [{"arguments": [], "recipe": "lint"}],
                        "parameters": [], "private": false
                    }
                }
            },
            "sync": {
                "first": "check", "modules": {},
                "recipes": {
                    "check": {
                        "name": "check", "namepath": "sync::check",
                        "dependencies": [], "parameters": [],
                        "private": false
                    }
                }
            }
        },
        "recipes": {
            "check": {
                "name": "check", "namepath": "check",
                "dependencies": [
                    {"recipe": "check", "arguments": []},
                    {"recipe": "check", "arguments": []},
                    {"recipe": "check", "arguments": []}
                ],
                "parameters": [], "private": false
            }
        }
    }"#,
    );
    flatten(&mut dump, &[]);

    let graph = RecipeGraph::build(&dump, "check").unwrap();
    let order = graph.execution_order().unwrap();

    // root check + 3 module checks + core::test + app::lint = 6
    assert_eq!(order.len(), 6, "expected 6 recipes, got: {:?}", order);

    // root check must come last
    assert_eq!(order.last().unwrap(), "check");

    // core::test must precede core::check
    let pos = |name: &str| order.iter().position(|n| n == name).unwrap();
    assert!(pos("core::test") < pos("core::check"));
    assert!(pos("app::lint") < pos("app::check"));

    // all three module checks must appear before root check
    assert!(pos("core::check") < pos("check"));
    assert!(pos("app::check") < pos("check"));
    assert!(pos("sync::check") < pos("check"));
}

#[test]
fn test_build_graph_nonexistent_module_recipe_errors() {
    let dump = modules_dump();

    let result = RecipeGraph::build(&dump, "build::nonexistent");
    assert!(result.is_err());
    assert!(result.unwrap_err().to_string().contains("not found"));
}

#[test]
fn cycle_is_found_and_named() {
    let dump = make_dump(
        vec![
            make_recipe("a", &["b"]),
            make_recipe("b", &["c"]),
            make_recipe("c", &["b"]),
        ],
        Some("a"),
    );
    let error = RecipeGraph::build(&dump, "a").unwrap_err();
    let name = match &error {
        GraphError::Cycle(name) => name.clone(),
        GraphError::NotFound(_) => panic!("not a missing recipe"),
    };
    assert!(name == "b" || name == "c");
    assert_eq!(
        error.to_string(),
        format!("Circular dependency detected involving recipe '{}'", name)
    );
}

#[test]
fn recipe_that_depends_on_itself_is_a_cycle() {
    let dump = make_dump(vec![make_recipe("a", &["a"])], Some("a"));
    let error = RecipeGraph::build(&dump, "a").unwrap_err();
    assert_eq!(error.to_string(), "Circular dependency detected involving recipe 'a'");
}

#[test]
fn cycle_outside_of_the_target_does_not_matter() {
    let dump = make_dump(
        vec![make_recipe("a", &[]), make_recipe("b", &["c"]), make_recipe("c", &["b", "missing"])],
        Some("a"),
    );
    let graph = RecipeGraph::build(&dump, "a").unwrap();
    assert_eq!(graph.execution_order().unwrap(), vec!["a"]);
    assert!(graph.dependencies_of("b").is_empty());
}

#[test]
fn missing_dependency_is_named() {
    let dump = make_dump(
        vec![make_recipe("a", &["b", "gone"]), make_recipe("b", &["a"])],
        Some("a"),
    );
    let error = RecipeGraph::build(&dump, "a").unwrap_err();
    assert_eq!(error.to_string(), "Recipe 'gone' not found");
    assert!(matches!(error, GraphError::NotFound(_)));
}

#[test]
fn dependencies_come_last_one_first() {
    let dump = make_dump(
        vec![
            make_recipe("a", &[]),
            make_recipe("b", &[]),
            make_recipe("c", &["a", "b", "a"]),
        ],
        Some("c"),
    );
    let graph = RecipeGraph::build(&dump, "c").unwrap();
    assert_eq!(graph.dependencies_of("c"), vec!["a", "b", "a"]);
    let dump = make_dump(
        vec![
            make_recipe("a", &[]),
            make_recipe("b", &[]),
            make_recipe("c", &["a", "b"]),
        ],
        Some("c"),
    );
    let graph = RecipeGraph::build(&dump, "c").unwrap();
    assert_eq!(graph.dependencies_of("c"), vec!["b", "a"]);
}

#[test]
fn order_puts_dependencies_first_in_many_graphs() {
    let mut seed: u64 = 7;
    for _ in 0..50 {
        let mut recipes = Vec::new();
        let mut all: Vec<Vec<String>> = Vec::new();
        for i in 0..12 {
            let mut deps: Vec<String> = Vec::new();
            for j in 0..i {
                seed = seed.wrapping_mul(6364136223846793005).wrapping_add(1442695040888963407);
                if (seed >> 33) % 3 == 0 {
                    deps.push(format!("r{}", j));
                }
            }
            let names: Vec<&str> = deps.iter().map(|d| d.as_str()).collect();
            recipes.push(make_recipe(&format!("r{}", i), &names));
            all.push(deps);
        }
        let dump = make_dump(recipes, None);
        assert!(RecipeGraph::check_fits(&dump, "r11"));
        let graph = RecipeGraph::build(&dump, "r11").unwrap();
        let order = graph.execution_order().unwrap();
        assert_eq!(order.last().unwrap(), "r11");
        for (at, name) in order.iter().enumerate() {
            let i: usize = name[1..].parse().unwrap();
            let mut deps = graph.dependencies_of(name);
            deps.reverse();
            assert_eq!(deps, all[i]);
            for d in &deps {
                assert!(order.iter().position(|n| n == d).unwrap() < at);
            }
        }
    }
}
