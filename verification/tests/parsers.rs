use depscan::language::{Plan, Search};
use depscan::parsers::agda::standard_namespace_list;
use depscan::parsers::haskell::nested_path;
use depscan::parsers::typescript::{known_extension_list, resolve_local_path, with_known_extensions};
use depscan::parsers::{AgdaParser, HaskellParser, TypeScriptParser};

fn texts(items: &[&str]) -> Vec<String> {
    items.iter().map(|s| s.to_string()).collect()
}

fn search_of(plan: Plan) -> Search {
    match plan {
        Plan::Resolve(search) => search,
        _ => panic!("a search was expected"),
    }
}

#[test]
fn agda_extracts_module_names_in_order() {
    let content = "module M where\n\nopen import Data.List\nopen  import\tHelpers\n-- import Nothing\nopen import A.B.C using (x)\n";
    assert_eq!(AgdaParser.extract(content), Ok(texts(&["Data.List", "Helpers", "A.B.C"])));
}

#[test]
fn agda_extraction_tolerates_anything_else() {
    assert_eq!(AgdaParser.extract(""), Ok(texts(&[])));
    assert_eq!(AgdaParser.extract("open import"), Ok(texts(&[])));
    assert_eq!(AgdaParser.extract("Open Import X\n{{{ open import Y"), Ok(texts(&["Y"])));
    assert_eq!(AgdaParser.extract("open import X open import X"), Ok(texts(&["X", "X"])));
}

#[test]
fn agda_standard_namespaces_are_external() {
    assert!(!AgdaParser.is_local_import("Agda.Builtin.Nat"));
    assert!(!AgdaParser.is_local_import("Data.List"));
    assert!(!AgdaParser.is_local_import("Relation.Binary.PropositionalEquality"));
    assert!(!AgdaParser.is_local_import("Data"));
    assert!(!AgdaParser.is_local_import("Data."));
    assert!(AgdaParser.is_local_import("Helpers"));
    assert!(AgdaParser.is_local_import("DataStructures.Tree"));
    assert!(AgdaParser.is_local_import("My.Data.List"));
    assert!(AgdaParser.is_local_import("data.List"));
    assert!(AgdaParser.is_local_import(""));
    assert!(AgdaParser.is_local_import(".Data"));
}

#[test]
fn agda_resolves_beside_the_importing_file() {
    assert_eq!(
        AgdaParser.resolve_local_path("/proj/src/Main.agda", "Helpers"),
        Ok("/proj/src/Helpers.agda".to_string())
    );
    assert_eq!(
        AgdaParser.resolve_local_path("/proj/src/Main.agda", "Utils.Text"),
        Ok("/proj/src/Utils.Text.agda".to_string())
    );
    assert_eq!(
        AgdaParser.resolve_local_path("Main.agda", "Helpers"),
        Ok("Helpers.agda".to_string())
    );
    assert_eq!(
        AgdaParser.resolve_local_path("/", "Helpers"),
        Err("Failed to get parent directory".to_string())
    );
    assert_eq!(
        AgdaParser.resolve_local_path("", "Helpers"),
        Err("Failed to get parent directory".to_string())
    );
}

#[test]
fn agda_plans() {
    assert!(matches!(AgdaParser.plan("/proj/Main.agda", "Data.Nat"), Plan::External));
    let search = search_of(AgdaParser.plan("/proj/Main.agda", "Helpers"));
    assert!(search.candidates.is_empty());
    assert_eq!(search.fallback, Some("/proj/Helpers.agda".to_string()));
    assert!(search.strict);
    match AgdaParser.plan("/", "Helpers") {
        Plan::Fail(message) => assert_eq!(message, "Failed to get parent directory"),
        _ => panic!("a failure was expected"),
    }
}

#[test]
fn haskell_extracts_imports_at_line_starts() {
    let content = "module Main where\nimport Data.List\n  import qualified Data.Map as M\nimport   Lib (f)\nx = import Fake\n-- import Commented\nimport qualified\tUtils.Text\n";
    assert_eq!(
        HaskellParser.extract(content),
        Ok(texts(&["Data.List", "Data.Map", "Lib", "Utils.Text"]))
    );
    assert_eq!(HaskellParser.extract("imported Foo"), Ok(texts(&[])));
    assert_eq!(HaskellParser.extract(""), Ok(texts(&[])));
}

#[test]
fn haskell_lists_candidates_nearest_first() {
    assert_eq!(
        HaskellParser.resolve_local_path("/p/a/Main.hs", "Data.Foo"),
        texts(&[
            "/p/a/Data.Foo.hs",
            "/p/a/Data/Foo.hs",
            "/p/Data.Foo.hs",
            "/p/Data/Foo.hs",
            "/Data.Foo.hs",
            "/Data/Foo.hs",
        ])
    );
    assert_eq!(
        HaskellParser.resolve_local_path("src/Main.hs", "Lib"),
        texts(&["src/Lib.hs", "src/Lib.hs", "Lib.hs", "Lib.hs"])
    );
    assert_eq!(
        HaskellParser.resolve_local_path("/p/Main.hs", "A.B.C"),
        texts(&["/p/A.B.C.hs", "/p/A/B/C.hs", "/A.B.C.hs", "/A/B/C.hs"])
    );
    assert_eq!(HaskellParser.resolve_local_path("/", "Lib"), texts(&[]));
}

#[test]
fn haskell_plans_a_lenient_search() {
    let search = search_of(HaskellParser.plan("/p/Main.hs", "Lib"));
    assert_eq!(search.candidates, texts(&["/p/Lib.hs", "/p/Lib.hs", "/Lib.hs", "/Lib.hs"]));
    assert_eq!(search.fallback, None);
    assert!(!search.strict);
}

#[test]
fn typescript_extracts_quoted_paths() {
    let content = "import React from 'react';\nimport { a, b } from \"./ab\";\nimport type { T } from './types';\nexport * from './all';\nexport { x } from \"../x\";\nimport './side-effect';\nconst fs = require('fs');\nlet p=require(\"./p\")\nvar q = require('./q');\nrequire('./unbound');\n";
    assert_eq!(
        TypeScriptParser.extract(content),
        Ok(texts(&[
            "react",
            "./ab",
            "./types",
            "./all",
            "../x",
            "fs",
            "./p",
            "./q",
        ]))
    );
    assert_eq!(TypeScriptParser.extract("const x = 1;\nfunction f() {}\n"), Ok(texts(&[])));
    assert_eq!(TypeScriptParser.extract("import'./glued';"), Ok(texts(&["./glued"])));
}

#[test]
fn typescript_local_paths_begin_with_a_dot() {
    assert!(TypeScriptParser.is_local_import("./util"));
    assert!(TypeScriptParser.is_local_import("../lib/x"));
    assert!(TypeScriptParser.is_local_import("."));
    assert!(TypeScriptParser.is_local_import(".hidden"));
    assert!(!TypeScriptParser.is_local_import("react"));
    assert!(!TypeScriptParser.is_local_import("@scope/pkg"));
    assert!(!TypeScriptParser.is_local_import("/abs/path"));
    assert!(!TypeScriptParser.is_local_import(""));
}

#[test]
fn typescript_tries_each_extension_in_turn() {
    assert_eq!(
        with_known_extensions("/proj/util"),
        texts(&["/proj/util.ts", "/proj/util.tsx", "/proj/util.js", "/proj/util.jsx"])
    );
    let search = resolve_local_path("/proj/src/main.ts", "./util").unwrap();
    assert_eq!(
        search.candidates,
        texts(&[
            "/proj/src/./util.ts",
            "/proj/src/./util.tsx",
            "/proj/src/./util.js",
            "/proj/src/./util.jsx",
        ])
    );
    assert_eq!(search.fallback, Some("/proj/src/./util.jsx".to_string()));
    assert!(search.strict);
}

#[test]
fn typescript_takes_a_named_extension_as_it_is() {
    let search = resolve_local_path("/proj/src/main.ts", "../lib/thing.js").unwrap();
    assert!(search.candidates.is_empty());
    assert_eq!(search.fallback, Some("/proj/src/../lib/thing.js".to_string()));
    assert!(search.strict);
    let search = resolve_local_path("/proj/main.ts", "./a.b").unwrap();
    assert!(search.candidates.is_empty());
    assert_eq!(search.fallback, Some("/proj/./a.b".to_string()));
}

#[test]
fn typescript_needs_a_directory() {
    match resolve_local_path("/", "./util") {
        Err(message) => assert_eq!(message, "Failed to get parent directory"),
        Ok(_) => panic!("a failure was expected"),
    }
}

#[test]
fn typescript_plans() {
    assert!(matches!(TypeScriptParser.plan("/proj/main.ts", "react"), Plan::External));
    let search = search_of(TypeScriptParser.plan("/proj/main.ts", "./util"));
    assert_eq!(search.candidates.len(), 4);
    match TypeScriptParser.plan("", "./util") {
        Plan::Fail(message) => assert_eq!(message, "Failed to get parent directory"),
        _ => panic!("a failure was expected"),
    }
}

#[test]
fn configuration_lists() {
    assert_eq!(standard_namespace_list(), vec!["Agda", "Data", "Relation"]);
    assert_eq!(known_extension_list(), vec!["ts", "tsx", "js", "jsx"]);
}

#[test]
fn nested_paths_put_the_suffix_on_the_last_segment() {
    assert_eq!(nested_path("/p", &texts(&["A", "B", "C"])), "/p/A/B/C.hs");
    assert_eq!(nested_path("/p", &texts(&["Lib"])), "/p/Lib.hs");
    assert_eq!(nested_path("", &texts(&["A", "B"])), "A/B.hs");
    assert_eq!(nested_path("/p", &texts(&[])), "/p");
    assert_eq!(nested_path("/p", &texts(&["A", ""])), "/p/A/.hs");
}

#[test]
fn haskell_candidates_for_odd_names() {
    assert_eq!(
        HaskellParser.resolve_local_path("/p/Main.hs", "A."),
        texts(&["/p/A..hs", "/p/A/.hs", "/A..hs", "/A/.hs"])
    );
}
