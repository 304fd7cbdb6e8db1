use just_fancy::justfile::dump_text;
use just_fancy::justfile::Dependency;
use just_fancy::justfile::DumpError;
use just_fancy::justfile::JustDump;
use just_fancy::justfile::ModuleMap;
use just_fancy::justfile::Parameter;
use just_fancy::justfile::Recipe;
use just_fancy::name_map::NameMap;
use serde_json::Value;

fn text(v: &Value) -> String {
    v.as_str().unwrap_or("").to_string()
}

fn optional(v: &Value) -> Option<Value> {
    if v.is_null() {
        None
    } else {
        Some(v.clone())
    }
}

fn list(v: &Value) -> Vec<Value> {
    v.as_array().cloned().unwrap_or_default()
}

fn to_recipe(v: &Value) -> Recipe {
    Recipe {
        name: text(&v["name"]),
        namepath: text(&v["namepath"]),
        dependencies: list(&v["dependencies"])
            .iter()
            .map(|d| Dependency { recipe: text(&d["recipe"]), _arguments: list(&d["arguments"]) })
            .collect(),
        private: v["private"].as_bool().unwrap_or(false),
        parameters: list(&v["parameters"])
            .iter()
            .map(|p| Parameter { name: text(&p["name"]), default: optional(&p["default"]) })
            .collect(),
    }
}

fn to_dump(v: &Value) -> JustDump {
    let mut recipes = NameMap::new();
    for (key, recipe) in v["recipes"].as_object().unwrap() {
        recipes.insert(key.clone(), to_recipe(recipe));
    }
    let mut modules = ModuleMap::new();
    if let Some(inner) = v["modules"].as_object() {
        for (key, module) in inner {
            modules.insert(key.clone(), to_dump(module));
        }
    }
    JustDump {
        recipes,
        first: v["first"].as_str().map(String::from),
        modules,
        source: v["source"].as_str().map(String::from),
    }
}

fn parse(json: &str) -> JustDump {
    let value: Value = serde_json::from_str(json).unwrap();
    to_dump(&value)
}

/// Flatten with the given files, each a path and a content; all others cannot be read.
fn flatten(dump: &mut JustDump, files: &[(&str, &str)]) {
    let sources: Vec<(String, Option<String>)> = dump
        .source_paths()
        .into_iter()
        .map(|(module, path)| {
            let content = files.iter().find(|f| f.0 == path).map(|f| f.1.to_string());
            (module, content)
        })
        .collect();
    dump.flatten_modules(&sources);
}

const MODULES_JSON: &str = r#"{
        "aliases": {},
        "assignments": {},
        "first": "all",
        "doc": null,
        "groups": [],
        "modules": {
            "build": {
                "aliases": {},
                "assignments": {},
                "first": "compile",
                "doc": null,
                "groups": [],
                "modules": {},
                "recipes": {
                    "compile": {
                        "attributes": [],
                        "body": [["@echo \"Compiling...\""]],
                        "dependencies": [{"arguments": [], "recipe": "generate"}],
                        "doc": "Compile the project",
                        "name": "compile",
                        "namepath": "build::compile",
                        "parameters": [],
                        "priors": 1,
                        "private": false,
                        "quiet": false,
                        "shebang": false
                    },
                    "generate": {
                        "attributes": [],
                        "body": [["@echo \"Generating...\""]],
                        "dependencies": [],
                        "doc": "Generate code",
                        "name": "generate",
                        "namepath": "build::generate",
                        "parameters": [],
                        "priors": 0,
                        "private": false,
                        "quiet": false,
                        "shebang": false
                    }
                },
                "settings": {},
                "source": "build.just",
                "unexports": [],
                "warnings": []
            },
            "test": {
                "aliases": {},
                "assignments": {},
                "first": "unit",
                "doc": null,
                "groups": [],
                "modules": {},
                "recipes": {
                    "unit": {
                        "attributes": [],
                        "body": [["@echo \"Running unit tests...\""]],
                        "dependencies": [],
                        "doc": "Run unit tests",
                        "name": "unit",
                        "namepath": "test::unit",
                        "parameters": [],
                        "priors": 0,
                        "private": false,
                        "quiet": false,
                        "shebang": false
                    },
                    "integration": {
                        "attributes": [],
                        "body": [["@echo \"Running integration tests...\""]],
                        "dependencies": [],
                        "doc": "Run integration tests",
                        "name": "integration",
                        "namepath": "test::integration",
                        "parameters": [],
                        "priors": 0,
                        "private": false,
                        "quiet": false,
                        "shebang": false
                    }
                },
                "settings": {},
                "source": "test.just",
                "unexports": [],
                "warnings": []
            }
        },
        "recipes": {
            "all": {
                "attributes": [],
                "body": [["@echo \"All done!\""]],
                "dependencies": [
                    {"arguments": [], "recipe": "compile"},
                    {"arguments": [], "recipe": "unit"}
                ],
                "doc": "Run everything",
                "name": "all",
                "namepath": "all",
                "parameters": [],
                "priors": 2,
                "private": false,
                "quiet": false,
                "shebang": false
            },
            "hello": {
                "attributes": [],
                "body": [["@echo \"Hello from root!\""]],
                "dependencies": [],
                "doc": "A root-level recipe",
                "name": "hello",
                "namepath": "hello",
                "parameters": [],
                "priors": 0,
                "private": false,
                "quiet": false,
                "shebang": false
            }
        },
        "settings": {},
        "source": "justfile",
        "unexports": [],
        "warnings": []
    }"#;

#[test]
fn test_parse_json() {
    // Test parsing just's JSON format directly
    let json = r#"{
        "recipes": {
            "build": {
                "name": "build",
                "dependencies": [],
                "private": false,
                "parameters": []
            },
            "test": {
                "name": "test",
                "dependencies": [{"recipe": "build", "arguments": []}],
                "private": false,
                "parameters": []
            },
            "_private": {
                "name": "_private",
                "dependencies": [],
                "private": true,
                "parameters": []
            }
        },
        "first": "build"
    }"#;

    let dump: JustDump = parse(json);

    assert_eq!(dump.default_recipe(), Some("build"));
    assert_eq!(dump.recipes.len(), 3);

    let build = dump.get_recipe("build").unwrap();
    assert_eq!(build.name, "build");
    assert!(build.dependencies.is_empty());

    let test = dump.get_recipe("test").unwrap();
    assert_eq!(test.dependency_names(), vec!["build"]);
}

#[test]
fn test_public_recipes() {
    let json = r#"{
        "recipes": {
            "public1": {"name": "public1", "dependencies": [], "private": false, "parameters": []},
            "public2": {"name": "public2", "dependencies": [], "private": false, "parameters": []},
            "_private": {"name": "_private", "dependencies": [], "private": true, "parameters": []}
        },
        "first": "public1"
    }"#;

    let dump: JustDump = parse(json);
    let public: Vec<_> = dump.public_recipes();

    assert_eq!(public.len(), 2);
    assert!(public.iter().all(|r| !r.private));
}

#[test]
fn test_recipe_with_parameters() {
    let json = r#"{
        "recipes": {
            "deploy": {
                "name": "deploy",
                "dependencies": [],
                "private": false,
                "parameters": [
                    {"name": "env", "default": null},
                    {"name": "verbose", "default": "false"}
                ]
            }
        },
        "first": "deploy"
    }"#;

    let dump: JustDump = parse(json);
    let deploy = dump.get_recipe("deploy").unwrap();

    assert_eq!(deploy.parameters.len(), 2);
    assert!(deploy.has_required_params()); // "env" has no default
}

#[test]
fn test_parse_json_with_modules_doesnt_error() {
    let dump: JustDump = parse(MODULES_JSON);

    // Root-level recipes are present
    assert_eq!(dump.recipes.len(), 2);
    assert!(dump.get_recipe("all").is_some());
    assert!(dump.get_recipe("hello").is_some());

    // Without `flatten_modules()`, module recipes are not in the root recipes map.
    // This tests the raw deserialization path.
    assert!(dump.get_recipe("build::compile").is_none());
    assert!(dump.get_recipe("test::unit").is_none());
}

#[test]
fn test_get_recipe_by_namepath_resolves_module_recipe() {
    let mut dump: JustDump = parse(MODULES_JSON);
    flatten(&mut dump, &[]);

    let compile = dump.get_recipe("build::compile");
    assert!(
        compile.is_some(),
        "get_recipe(\"build::compile\") should resolve the recipe inside the build module"
    );
    let compile = compile.unwrap();
    assert_eq!(compile.name, "compile");

    let generate = dump.get_recipe("build::generate");
    assert!(generate.is_some());

    let unit = dump.get_recipe("test::unit");
    assert!(unit.is_some());

    let integration = dump.get_recipe("test::integration");
    assert!(integration.is_some());
}

#[test]
fn test_public_recipes_includes_module_recipes() {
    let mut dump: JustDump = parse(MODULES_JSON);
    flatten(&mut dump, &[]);

    // Root has 2 public recipes; modules add 4 more (compile, generate,
    // unit, integration) for a total of 6.
    let public: Vec<_> = dump.public_recipes();
    assert_eq!(
        public.len(),
        6,
        "public_recipes() should include module recipes; got {:?}",
        public.iter().map(|r| &r.name).collect::<Vec<_>>()
    );
}

#[test]
fn test_nested_modules_two_levels_deep() {
    let json = r#"{
        "first": "ship",
        "modules": {
            "infra": {
                "first": "provision",
                "modules": {
                    "deploy": {
                        "first": "setup",
                        "modules": {},
                        "recipes": {
                            "setup": {
                                "name": "setup", "namepath": "infra::deploy::setup",
                                "dependencies": [], "parameters": [],
                                "private": false
                            },
                            "run": {
                                "name": "run", "namepath": "infra::deploy::run",
                                "dependencies": [{"recipe": "setup", "arguments": []}],
                                "parameters": [], "private": false
                            }
                        }
                    }
                },
                "recipes": {
                    "provision": {
                        "name": "provision", "namepath": "infra::provision",
                        "dependencies": [], "parameters": [],
                        "private": false
                    }
                }
            }
        },
        "recipes": {
            "ship": {
                "name": "ship", "namepath": "ship",
                "dependencies": [{"recipe": "provision", "arguments": []}],
                "parameters": [], "private": false
            }
        }
    }"#;

    let mut dump: JustDump = parse(json);
    flatten(&mut dump, &[]);

    // All 4 recipes should be accessible by namepath
    assert_eq!(dump.recipes.len(), 4);
    assert!(dump.get_recipe("ship").is_some());
    assert!(dump.get_recipe("infra::provision").is_some());
    assert!(dump.get_recipe("infra::deploy::setup").is_some());
    assert!(dump.get_recipe("infra::deploy::run").is_some());

    // infra::deploy::run's dep "setup" should resolve to "infra::deploy::setup"
    let run = dump.get_recipe("infra::deploy::run").unwrap();
    assert_eq!(
        run.dependencies[0].recipe,
        "infra::deploy::setup",
        "infra::deploy::run dep should resolve from \"setup\" to \"infra::deploy::setup\""
    );

    // root ship's dep "provision" should resolve to "infra::provision"
    let ship = dump.get_recipe("ship").unwrap();
    assert_eq!(
        ship.dependencies[0].recipe,
        "infra::provision",
        "ship dep should resolve from \"provision\" to \"infra::provision\""
    );
}

#[test]
fn test_flatten_modules_duplicate_cross_module_deps() {
    let json = r#"{
        "first": "check",
        "modules": {
            "core": {
                "first": "check", "modules": {},
                "recipes": {
                    "check": {
                        "name": "check", "namepath": "core::check",
                        "dependencies": [], "parameters": [], "private": false
                    }
                }
            },
            "app": {
                "first": "check", "modules": {},
                "recipes": {
                    "check": {
                        "name": "check", "namepath": "app::check",
                        "dependencies": [], "parameters": [], "private": false
                    }
                }
            },
            "sync": {
                "first": "check", "modules": {},
                "recipes": {
                    "check": {
                        "name": "check", "namepath": "sync::check",
                        "dependencies": [], "parameters": [], "private": false
                    }
                }
            }
        },
        "recipes": {
            "check": {
                "name": "check", "namepath": "check",
                "dependencies": [
                    {"recipe": "check", "arguments": []},
                    {"recipe": "check", "arguments": []},
                    {"recipe": "check", "arguments": []}
                ],
                "parameters": [], "private": false
            }
        }
    }"#;

    let mut dump: JustDump = parse(json);
    flatten(&mut dump, &[]);

    // 3 module recipes + 1 root = 4 total
    assert_eq!(dump.recipes.len(), 4);

    let check = dump.get_recipe("check").unwrap();
    assert_eq!(check.dependencies.len(), 3, "root check should have 3 resolved deps");

    // All 3 resolved deps should be distinct module namepaths, not self-referential
    let mut dep_names: Vec<String> = check
        .dependencies
        .iter()
        .map(|d| d.recipe.clone())
        .collect();
    dep_names.sort();

    assert_eq!(
        dep_names,
        vec!["app::check", "core::check", "sync::check"],
        "root check's deps should resolve to the 3 distinct module namepaths"
    );

    // No dep should point back to the root "check" (self-reference)
    assert!(
        !dep_names.contains(&"check".to_string()),
        "no dep should be self-referential"
    );
}

#[test]
fn test_source_file_disambiguation_for_ambiguous_child_module_dep() {
    let json = r#"{
        "first": "android-debug-build",
        "modules": {
            "app": {
                "first": "android-debug-build",
                "source": "app/mod.just",
                "modules": {
                    "wasm": {
                        "first": "build-debug", "modules": {},
                        "recipes": {
                            "build-debug": {
                                "name": "build-debug",
                                "namepath": "app::wasm::build-debug",
                                "dependencies": [], "parameters": [], "private": false
                            }
                        }
                    },
                    "browser-engine": {
                        "first": "build-debug", "modules": {},
                        "recipes": {
                            "build-debug": {
                                "name": "build-debug",
                                "namepath": "app::browser-engine::build-debug",
                                "dependencies": [], "parameters": [], "private": false
                            }
                        }
                    }
                },
                "recipes": {
                    "android-debug-build": {
                        "name": "android-debug-build",
                        "namepath": "app::android-debug-build",
                        "dependencies": [{"recipe": "build-debug", "arguments": []}],
                        "parameters": [], "private": false
                    }
                }
            }
        },
        "recipes": {}
    }"#;

    let mut dump: JustDump = parse(json);
    flatten(&mut dump, &[("app/mod.just", "android-debug-build: wasm::build-debug\n")]);

    let recipe = dump.get_recipe("app::android-debug-build").unwrap();
    assert_eq!(recipe.dependencies.len(), 1);
    assert_eq!(
        recipe.dependencies[0].recipe,
        "app::wasm::build-debug",
        "dep should resolve to app::wasm::build-debug via source file disambiguation"
    );
}

#[test]
fn test_source_resolution_non_consecutive_duplicate_deps() {
    let json = r#"{
        "first": "check",
        "source": "justfile",
        "modules": {
            "core": {
                "first": "check", "modules": {},
                "recipes": {
                    "check": {
                        "name": "check", "namepath": "core::check",
                        "dependencies": [], "parameters": [], "private": false
                    }
                }
            },
            "sync": {
                "first": "check", "modules": {},
                "recipes": {
                    "check": {
                        "name": "check", "namepath": "sync::check",
                        "dependencies": [], "parameters": [], "private": false
                    }
                }
            }
        },
        "recipes": {
            "check": {
                "name": "check", "namepath": "check",
                "dependencies": [
                    {"recipe": "check", "arguments": []},
                    {"recipe": "app-check", "arguments": []},
                    {"recipe": "check", "arguments": []}
                ],
                "parameters": [], "private": false
            },
            "app-check": {
                "name": "app-check", "namepath": "app-check",
                "dependencies": [], "parameters": [], "private": false
            }
        }
    }"#;

    let mut dump: JustDump = parse(json);
    flatten(&mut dump, &[("justfile", "check: core::check app-check sync::check\n")]);

    let check = dump.get_recipe("check").unwrap();
    let dep_names: Vec<&str> = check.dependencies.iter().map(|d| d.recipe.as_str()).collect();

    assert_eq!(
        dep_names,
        vec!["core::check", "app-check", "sync::check"],
        "non-consecutive duplicate 'check' deps should resolve positionally from source"
    );
}

#[test]
fn test_parse_deps_from_source() {
    let content = r#"# a comment
[attribute]
recipe-with-params arg1 arg2: dep-a wasm::dep-b
no-deps:
    echo body line
other: dep-c && dep-d

"#;

    let deps = JustDump::parse_deps_from_source(content, "recipe-with-params").unwrap();
    assert_eq!(deps, vec!["dep-a", "wasm::dep-b"]);

    let deps = JustDump::parse_deps_from_source(content, "no-deps").unwrap();
    assert!(deps.is_empty());

    // `&&` marks post-deps; only pre-deps are returned
    let deps = JustDump::parse_deps_from_source(content, "other").unwrap();
    assert_eq!(deps, vec!["dep-c"]);

    // Non-existent recipe returns None
    assert!(JustDump::parse_deps_from_source(content, "missing").is_none());
}

#[test]
fn source_paths_name_their_modules() {
    let dump = parse(
        r#"{
        "first": null,
        "source": "justfile",
        "recipes": {},
        "modules": {
            "app": {
                "first": null, "source": "app/mod.just", "recipes": {},
                "modules": {
                    "wasm": {"first": null, "source": "app/wasm.just", "recipes": {}, "modules": {}},
                    "none": {"first": null, "recipes": {}, "modules": {}}
                }
            }
        }
    }"#,
    );
    let expected: Vec<(String, String)> = vec![
        (String::new(), "justfile".to_string()),
        ("app".to_string(), "app/mod.just".to_string()),
        ("app::wasm".to_string(), "app/wasm.just".to_string()),
    ];
    assert_eq!(dump.source_paths(), expected);
    assert_eq!(dump.default_recipe(), None);
}

#[test]
fn headers_are_read_as_written() {
    let content = "# build: x\n  build: indented\n\tbuild: tabbed\nbuild-all: y\n[private]\nbuild a='b':  dep1\tdep2 && after\r\nbuild: second\n";
    assert_eq!(
        JustDump::parse_deps_from_source(content, "build"),
        Some(vec!["dep1".to_string(), "dep2".to_string()])
    );
    assert_eq!(
        JustDump::parse_deps_from_source(content, "build-all"),
        Some(vec!["y".to_string()])
    );
    assert_eq!(JustDump::parse_deps_from_source("", "build"), None);
    assert_eq!(JustDump::parse_deps_from_source("x: && y", "x"), Some(vec![]));
    assert_eq!(JustDump::parse_deps_from_source("x:", "x"), Some(vec![]));
    assert_eq!(JustDump::parse_deps_from_source("no header", "no"), None);
}

#[test]
fn short_names_prefer_siblings() {
    let mut dump = parse(
        r#"{
        "first": null,
        "recipes": {
            "top": {"name": "top", "dependencies": [{"recipe": "leaf"}, {"recipe": "only"}]},
            "leaf": {"name": "leaf", "dependencies": []}
        },
        "modules": {
            "m": {
                "first": null,
                "recipes": {
                    "user": {"name": "user", "namepath": "m::user", "dependencies": [{"recipe": "leaf"}]},
                    "leaf": {"name": "leaf", "namepath": "m::leaf", "dependencies": []},
                    "only": {"name": "only", "namepath": "m::only", "dependencies": []},
                    "far": {"name": "far", "namepath": "m::far", "dependencies": [{"recipe": "deep"}]}
                },
                "modules": {
                    "n": {
                        "first": null,
                        "recipes": {
                            "leaf": {"name": "leaf", "namepath": "m::n::leaf", "dependencies": []},
                            "deep": {"name": "deep", "namepath": "m::n::deep", "dependencies": []}
                        }
                    }
                }
            }
        }
    }"#,
    );
    flatten(&mut dump, &[]);
    assert!(dump.modules.is_empty());
    let deps = |name: &str| -> Vec<String> {
        dump.get_recipe(name).unwrap().dependencies.iter().map(|d| d.recipe.clone()).collect()
    };
    assert_eq!(deps("m::user"), vec!["m::leaf"]);
    assert_eq!(deps("m::far"), vec!["m::n::deep"]);
    assert_eq!(deps("top"), vec!["m::leaf", "m::only"]);
    assert_eq!(dump.get_recipe("top").unwrap().namepath, "top");
}

#[test]
fn unresolved_names_are_left() {
    let mut dump = parse(
        r#"{
        "first": null,
        "recipes": {
            "top": {"name": "top", "dependencies": [{"recipe": "x"}, {"recipe": "gone"}]}
        },
        "modules": {
            "a": {"first": null, "recipes": {"x": {"name": "x", "namepath": "a::x"}}},
            "b": {"first": null, "recipes": {"x": {"name": "x", "namepath": "b::x"}}}
        }
    }"#,
    );
    flatten(&mut dump, &[]);
    let names = dump.get_recipe("top").unwrap().dependency_names();
    assert_eq!(names, vec!["x", "gone"]);
}

#[test]
fn source_with_another_number_of_dependencies_is_not_used() {
    let json = r#"{
        "first": null,
        "source": "justfile",
        "recipes": {
            "top": {"name": "top", "dependencies": [{"recipe": "x", "arguments": ["1"]}]}
        },
        "modules": {
            "a": {"first": null, "recipes": {"x": {"name": "x", "namepath": "a::x"}}}
        }
    }"#;
    let mut dump = parse(json);
    flatten(&mut dump, &[("justfile", "top: b::x c::x\n")]);
    let top = dump.get_recipe("top").unwrap();
    assert_eq!(top.dependency_names(), vec!["a::x"]);
    assert_eq!(top.dependencies[0]._arguments.len(), 1);

    let mut dump = parse(json);
    flatten(&mut dump, &[("justfile", "top: b::x\n")]);
    assert_eq!(dump.get_recipe("top").unwrap().dependency_names(), vec!["b::x"]);

    let mut dump = parse(json);
    flatten(&mut dump, &[("justfile", "top: (x 1)\n")]);
    assert_eq!(dump.get_recipe("top").unwrap().dependency_names(), vec!["a::x"]);
}

#[test]
fn module_recipe_replaces_a_root_recipe_of_its_name_path() {
    let mut dump = parse(
        r#"{
        "first": null,
        "recipes": {"x": {"name": "x", "private": true}},
        "modules": {"m": {"first": null, "recipes": {"x": {"name": "x", "namepath": ""}}}}
    }"#,
    );
    flatten(&mut dump, &[]);
    assert_eq!(dump.recipes.len(), 1);
    assert!(!dump.get_recipe("x").unwrap().private);
    assert!(!dump.recipes.is_empty());
    assert!(dump.recipes.contains_key("x"));
    assert!(!dump.recipes.contains_key("y"));
}

#[test]
fn parameters_with_defaults_are_not_required() {
    let dump = parse(
        r#"{
        "first": null,
        "recipes": {
            "a": {"name": "a", "parameters": [{"name": "p", "default": "x"}]},
            "b": {"name": "b", "parameters": []}
        }
    }"#,
    );
    assert!(!dump.get_recipe("a").unwrap().has_required_params());
    assert!(!dump.get_recipe("b").unwrap().has_required_params());
}

#[test]
fn output_of_just_is_read_or_refused() {
    assert_eq!(dump_text(true, "{\"é\": 1}".as_bytes(), b"warning").unwrap(), "{\"é\": 1}");
    let failed = dump_text(false, b"{}", b"bad \xff file").unwrap_err();
    assert_eq!(failed.to_string(), "just --dump failed: bad \u{fffd} file");
    assert!(matches!(failed, DumpError::Failed(_)));
    let invalid = dump_text(true, b"\xc3(", b"").unwrap_err();
    assert_eq!(invalid.to_string(), "Invalid UTF-8 in just output");
    assert!(matches!(invalid, DumpError::InvalidUtf8));
}

#[test]
fn names_stay_where_there_are_no_modules() {
    let json = r#"{
        "first": "a",
        "source": "justfile",
        "recipes": {
            "a": {"name": "a", "dependencies": [{"recipe": "b"}, {"recipe": "b"}, {"recipe": "a"}, {"recipe": "gone"}]},
            "b": {"name": "b"}
        }
    }"#;
    for content in ["", "a: b b a gone\n", "a: b\n"] {
        let mut dump = parse(json);
        flatten(&mut dump, &[("justfile", content)]);
        let names = dump.get_recipe("a").unwrap().dependency_names();
        assert_eq!(names, vec!["b", "b", "a", "gone"]);
    }
}

#[test]
fn short_name_in_a_source_stands_for_the_sibling() {
    let json = r#"{
        "first": null,
        "recipes": {"lint": {"name": "lint"}, "fmt": {"name": "fmt"}},
        "modules": {
            "app": {
                "first": null,
                "source": "app/mod.just",
                "recipes": {
                    "check": {
                        "name": "check", "namepath": "app::check",
                        "dependencies": [{"recipe": "lint"}]
                    },
                    "lint": {"name": "lint", "namepath": "app::lint"},
                    "all": {
                        "name": "all", "namepath": "app::all",
                        "dependencies": [{"recipe": "fmt"}]
                    }
                }
            }
        }
    }"#;
    for content in ["check: lint\nall: fmt\n", ""] {
        let mut dump = parse(json);
        flatten(&mut dump, &[("app/mod.just", content)]);
        assert_eq!(dump.get_recipe("app::check").unwrap().dependency_names(), vec!["app::lint"]);
        assert_eq!(dump.get_recipe("app::all").unwrap().dependency_names(), vec!["fmt"]);
    }
}

#[test]
fn assignment_is_no_header() {
    let content = "build := 'x'\nbuild: dep\n";
    assert_eq!(
        JustDump::parse_deps_from_source(content, "build"),
        Some(vec!["dep".to_string()])
    );
    assert_eq!(JustDump::parse_deps_from_source("build:='x'", "build"), None);
    assert_eq!(JustDump::parse_deps_from_source("alias b := build\n", "alias"), None);
    assert_eq!(
        JustDump::parse_deps_from_source("build: =\n", "build"),
        Some(vec!["=".to_string()])
    );
}

#[test]
fn maps_hold_no_name_twice() {
    let mut modules = ModuleMap::new();
    assert!(modules.is_empty());
    modules.insert("m".to_string(), parse(r#"{"first": "a", "recipes": {}}"#));
    modules.insert("n".to_string(), parse(r#"{"first": "b", "recipes": {}}"#));
    modules.insert("m".to_string(), parse(r#"{"first": "c", "recipes": {}}"#));
    assert_eq!(modules.len(), 2);

    let mut map: NameMap<u8> = NameMap::new();
    map.insert("x".to_string(), 1);
    map.insert("y".to_string(), 2);
    map.insert("x".to_string(), 3);
    assert_eq!(map.len(), 2);
    assert_eq!(map.get("x"), Some(&3));
    assert_eq!(map.get("z"), None);
    assert_eq!(*map.entry(1), ("y".to_string(), 2));
    assert_eq!(map.into_entries(), vec![("x".to_string(), 3), ("y".to_string(), 2)]);
}

#[test]
fn colon_in_quotes_does_not_end_the_head() {
    let deps = |content: &str| JustDump::parse_deps_from_source(content, "build");
    let dep = Some(vec!["dep".to_string()]);
    assert_eq!(deps("build x=':=': dep\n"), dep);
    assert_eq!(deps("build x='a:b': dep\n"), dep);
    assert_eq!(deps("build x=\"a:b\" y=`c:d`: dep\n"), dep);
    assert_eq!(deps("build x=\"\\\":\": dep\n"), dep);
    assert_eq!(deps("build x='\\': dep\n"), dep);
    assert_eq!(deps("build x='''a:b''': dep\n"), dep);
    assert_eq!(deps("build: dep # it's: all\n").unwrap()[0], "dep");
    assert_eq!(deps("build := 'a: b'\nbuild: dep\n"), dep);
    // where a quote is left open the first colon counts
    assert_eq!(deps("build x='a: dep\n"), dep);
    assert_eq!(deps("build 'x'\n"), None);
}
