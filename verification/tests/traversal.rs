use std::collections::HashMap;

use depscan::engine::{Step, Traversal};
use depscan::language::{Dependency, DependencyParser, Language, LanguageFactory, LanguageKind};
use depscan::parsers::{AgdaParser, HaskellParser, TypeScriptParser};

/// A file system held in memory: absolute paths and their texts.
struct Files {
    texts: HashMap<String, String>,
}

impl Files {
    fn new(entries: &[(&str, &str)]) -> Files {
        let mut texts = HashMap::new();
        for (path, text) in entries {
            texts.insert(path.to_string(), text.to_string());
        }
        Files { texts }
    }

    fn normalize(path: &str) -> String {
        let mut parts: Vec<&str> = Vec::new();
        for part in path.split('/') {
            if part.is_empty() || part == "." {
                continue;
            }
            if part == ".." {
                parts.pop();
            } else {
                parts.push(part);
            }
        }
        format!("/{}", parts.join("/"))
    }

    fn read(&self, path: &str) -> Result<String, String> {
        match self.texts.get(&Files::normalize(path)) {
            Some(text) => Ok(text.clone()),
            None => Err("No such file or directory (os error 2)".to_string()),
        }
    }

    fn has(&self, path: &str) -> bool {
        self.texts.contains_key(&Files::normalize(path))
    }

    fn canonicalize(&self, path: &str) -> Result<String, String> {
        let canonical = Files::normalize(path);
        if self.texts.contains_key(&canonical) {
            Ok(canonical)
        } else {
            Err("No such file or directory (os error 2)".to_string())
        }
    }
}

/// What a traversal asked for on its way.
struct Trace {
    reads: Vec<String>,
    probes: Vec<String>,
    canonicalized: Vec<String>,
}

fn drive(first: Step, files: &Files) -> (Result<Vec<Dependency>, String>, Trace) {
    let mut trace = Trace { reads: Vec::new(), probes: Vec::new(), canonicalized: Vec::new() };
    let mut step = first;
    for _ in 0..100_000 {
        step = match step {
            Step::Read(request) => {
                trace.reads.push(request.path().to_string());
                let answer = files.read(request.path());
                request.resume(answer)
            }
            Step::Probe(request) => {
                trace.probes.push(request.path().to_string());
                let answer = files.has(request.path());
                request.resume(answer)
            }
            Step::Canonicalize(request) => {
                trace.canonicalized.push(request.path().to_string());
                let answer = files.canonicalize(request.path());
                request.resume(answer)
            }
            Step::Done(result) => return (result, trace),
        };
    }
    panic!("the traversal did not end");
}

fn language(name: &str, include_external: bool) -> Language {
    Language {
        name: name.to_string(),
        file_extensions: vec![format!(".{}", name)],
        include_external,
    }
}

fn analyse(name: &str, entry: &str, include_external: bool, files: &Files) -> Result<Vec<Dependency>, String> {
    let parser = LanguageFactory::get_parser(name).expect("a known language");
    drive(parser.parse(entry, &language(name, include_external)), files).0
}

fn sorted(mut dependencies: Vec<Dependency>) -> Vec<String> {
    let mut lines: Vec<String> = dependencies.drain(..).map(|d| format!("{:?}", d)).collect();
    lines.sort();
    lines
}

fn local(path: &str) -> Dependency {
    Dependency::Local(path.to_string())
}

fn external(name: &str) -> Dependency {
    Dependency::External(name.to_string())
}

#[test]
fn agda_scenario_reports_local_and_external() {
    let files = Files::new(&[
        ("/proj/Main.agda", "module Main where\nopen import Data.List\nopen import Helpers\n"),
        ("/proj/Helpers.agda", "module Helpers where\n"),
    ]);
    let found = analyse("agda", "/proj/Main.agda", true, &files).unwrap();
    assert_eq!(found, vec![external("Data.List"), local("/proj/Helpers.agda")]);
}

#[test]
fn agda_scenario_without_external() {
    let files = Files::new(&[
        ("/proj/Main.agda", "open import Data.List\nopen import Helpers\n"),
        ("/proj/Helpers.agda", ""),
    ]);
    let found = analyse("agda", "/proj/Main.agda", false, &files).unwrap();
    assert_eq!(found, vec![local("/proj/Helpers.agda")]);
}

#[test]
fn parsing_twice_gives_the_same_members() {
    let files = Files::new(&[
        ("/proj/Main.agda", "open import A\nopen import Data.Nat\nopen import B\n"),
        ("/proj/A.agda", "open import B\nopen import Relation.Binary\n"),
        ("/proj/B.agda", "open import Agda.Primitive\n"),
    ]);
    let first = analyse("agda", "/proj/Main.agda", true, &files).unwrap();
    let second = analyse("agda", "/proj/Main.agda", true, &files).unwrap();
    assert_eq!(sorted(first.clone()), sorted(second));
    assert_eq!(
        sorted(first),
        vec![
            "External(\"Agda.Primitive\")".to_string(),
            "External(\"Data.Nat\")".to_string(),
            "External(\"Relation.Binary\")".to_string(),
            "Local(\"/proj/A.agda\")".to_string(),
            "Local(\"/proj/B.agda\")".to_string(),
        ]
    );
}

#[test]
fn cycle_terminates_with_each_file_once() {
    let files = Files::new(&[
        ("/proj/x.ts", "import { y } from './y';\n"),
        ("/proj/y.ts", "import { x } from './x';\n"),
    ]);
    let parser = TypeScriptParser;
    let (result, trace) = drive(parser.parse("/proj/x.ts", &language("ts", true)), &files);
    let found = result.unwrap();
    assert_eq!(found, vec![local("/proj/y.ts"), local("/proj/x.ts")]);
    assert_eq!(trace.reads, vec!["/proj/x.ts".to_string(), "/proj/y.ts".to_string()]);
}

#[test]
fn cycle_through_the_entry_in_agda() {
    let files = Files::new(&[
        ("/proj/X.agda", "open import Y\n"),
        ("/proj/Y.agda", "open import X\nopen import Y\n"),
    ]);
    let parser = AgdaParser;
    let (result, trace) = drive(parser.parse("/proj/X.agda", &language("agda", true)), &files);
    assert_eq!(result.unwrap(), vec![local("/proj/Y.agda"), local("/proj/X.agda")]);
    assert_eq!(trace.reads, vec!["/proj/X.agda".to_string(), "/proj/Y.agda".to_string()]);
}

#[test]
fn diamond_reports_the_shared_file_once() {
    let files = Files::new(&[
        ("/proj/x.ts", "import y from './y';\nimport z from './z';\n"),
        ("/proj/y.ts", "import w from './w';\n"),
        ("/proj/z.ts", "const w = require('./w');\n"),
        ("/proj/w.ts", "export const w = 1;\n"),
    ]);
    let parser = TypeScriptParser;
    let (result, trace) = drive(parser.parse("/proj/x.ts", &language("ts", true)), &files);
    let found = result.unwrap();
    assert_eq!(found, vec![local("/proj/y.ts"), local("/proj/w.ts"), local("/proj/z.ts")]);
    let shared = found.iter().filter(|d| **d == local("/proj/w.ts")).count();
    assert_eq!(shared, 1);
    assert_eq!(trace.reads.iter().filter(|p| p.as_str() == "/proj/w.ts").count(), 1);
}

#[test]
fn no_external_dependency_without_the_flag() {
    let files = Files::new(&[
        (
            "/proj/main.ts",
            "import React from 'react';\nimport fs from 'fs';\nimport u from './util';\nconst p = require('path');\n",
        ),
        ("/proj/util.ts", "import _ from 'lodash';\n"),
    ]);
    let found = analyse("ts", "/proj/main.ts", false, &files).unwrap();
    assert_eq!(found, vec![local("/proj/util.ts")]);
    assert!(found.iter().all(|d| matches!(d, Dependency::Local(_))));
    let with_flag = analyse("typescript", "/proj/main.ts", true, &files).unwrap();
    assert_eq!(
        with_flag,
        vec![
            external("react"),
            external("fs"),
            local("/proj/util.ts"),
            external("lodash"),
            external("path"),
        ]
    );
}

#[test]
fn extension_fallback_finds_tsx() {
    let files = Files::new(&[
        ("/proj/src/main.ts", "import { util } from './util';\n"),
        ("/proj/src/util.tsx", ""),
    ]);
    let parser = TypeScriptParser;
    let (result, trace) = drive(parser.parse("/proj/src/main.ts", &language("ts", true)), &files);
    assert_eq!(result.unwrap(), vec![local("/proj/src/util.tsx")]);
    assert_eq!(
        trace.probes,
        vec!["/proj/src/./util.ts".to_string(), "/proj/src/./util.tsx".to_string()]
    );
    assert_eq!(trace.canonicalized, vec!["/proj/src/./util.tsx".to_string()]);
}

#[test]
fn extension_fallback_settles_for_the_last_candidate() {
    let files = Files::new(&[("/proj/main.ts", "import m from './missing';\n")]);
    let parser = TypeScriptParser;
    let (result, trace) = drive(parser.parse("/proj/main.ts", &language("ts", true)), &files);
    assert_eq!(
        result,
        Err("Failed to resolve path: No such file or directory (os error 2)".to_string())
    );
    assert_eq!(
        trace.probes,
        vec![
            "/proj/./missing.ts".to_string(),
            "/proj/./missing.tsx".to_string(),
            "/proj/./missing.js".to_string(),
            "/proj/./missing.jsx".to_string(),
        ]
    );
    assert_eq!(trace.canonicalized, vec!["/proj/./missing.jsx".to_string()]);
}

#[test]
fn a_named_extension_is_not_searched_for() {
    let files = Files::new(&[
        ("/proj/main.ts", "export * from '../lib/data.json';\n"),
        ("/lib/data.json", "{}"),
    ]);
    let parser = TypeScriptParser;
    let (result, trace) = drive(parser.parse("/proj/main.ts", &language("ts", false)), &files);
    assert_eq!(result.unwrap(), vec![local("/lib/data.json")]);
    assert!(trace.probes.is_empty());
    assert_eq!(trace.canonicalized, vec!["/proj/../lib/data.json".to_string()]);
}

#[test]
fn nearest_flat_file_wins_over_nested_file_further_up() {
    let files = Files::new(&[
        ("/p/a/b/Main.hs", "module Main where\nimport qualified Data.Foo as F\n"),
        ("/p/a/b/Data.Foo.hs", "module Data.Foo where\n"),
        ("/p/Data/Foo.hs", "module Data.Foo where\n"),
    ]);
    let parser = HaskellParser;
    let (result, trace) = drive(parser.parse("/p/a/b/Main.hs", &language("haskell", true)), &files);
    assert_eq!(result.unwrap(), vec![local("/p/a/b/Data.Foo.hs")]);
    assert_eq!(trace.probes, vec!["/p/a/b/Data.Foo.hs".to_string()]);
}

#[test]
fn nested_file_further_up_is_found_when_nothing_is_nearer() {
    let files = Files::new(&[
        ("/p/a/b/Main.hs", "import Data.Foo\nimport Data.Maybe\n"),
        ("/p/Data/Foo.hs", "import Prelude\n"),
    ]);
    let found = analyse("haskell", "/p/a/b/Main.hs", true, &files).unwrap();
    assert_eq!(
        found,
        vec![local("/p/Data/Foo.hs"), external("Prelude"), external("Data.Maybe")]
    );
    let found = analyse("haskell", "/p/a/b/Main.hs", false, &files).unwrap();
    assert_eq!(found, vec![local("/p/Data/Foo.hs")]);
}

#[test]
fn haskell_searches_nearest_first_and_flat_before_nested() {
    let files = Files::new(&[("/p/a/Main.hs", "import A.B\n")]);
    let parser = HaskellParser;
    let (result, trace) = drive(parser.parse("/p/a/Main.hs", &language("haskell", true)), &files);
    assert_eq!(result.unwrap(), vec![external("A.B")]);
    assert_eq!(
        trace.probes,
        vec![
            "/p/a/A.B.hs".to_string(),
            "/p/a/A/B.hs".to_string(),
            "/p/A.B.hs".to_string(),
            "/p/A/B.hs".to_string(),
            "/A.B.hs".to_string(),
            "/A/B.hs".to_string(),
        ]
    );
    assert!(trace.canonicalized.is_empty());
}

#[test]
fn unreadable_entry_fails_the_analysis() {
    let files = Files::new(&[]);
    let result = analyse("agda", "/nowhere/Main.agda", true, &files);
    assert_eq!(
        result,
        Err("Failed to read file: No such file or directory (os error 2)".to_string())
    );
}

#[test]
fn unreadable_file_deep_in_the_graph_fails_the_analysis() {
    let files = Files::new(&[
        ("/proj/a.ts", "import b from './b';\n"),
        ("/proj/b.ts", "import c from './c';\n"),
        ("/proj/c.ts", ""),
    ]);
    let parser = TypeScriptParser;
    let mut step = parser.parse("/proj/a.ts", &language("ts", true));
    let mut reads = 0;
    let result = loop {
        step = match step {
            Step::Read(request) => {
                reads += 1;
                let answer = if request.path() == "/proj/c.ts" {
                    Err("Permission denied (os error 13)".to_string())
                } else {
                    files.read(request.path())
                };
                request.resume(answer)
            }
            Step::Probe(request) => {
                let answer = files.has(request.path());
                request.resume(answer)
            }
            Step::Canonicalize(request) => {
                let answer = files.canonicalize(request.path());
                request.resume(answer)
            }
            Step::Done(result) => break result,
        };
    };
    assert_eq!(reads, 3);
    assert_eq!(result, Err("Failed to read file: Permission denied (os error 13)".to_string()));
}

#[test]
fn missing_agda_module_fails_the_analysis() {
    let files = Files::new(&[("/proj/Main.agda", "open import Missing\n")]);
    let result = analyse("agda", "/proj/Main.agda", true, &files);
    assert_eq!(
        result,
        Err("Failed to resolve path: No such file or directory (os error 2)".to_string())
    );
}

#[test]
fn haskell_file_without_canonical_form_is_external() {
    let parser = HaskellParser;
    let step = parser.parse("/p/Main.hs", &language("haskell", true));
    let step = match step {
        Step::Read(request) => request.resume(Ok("import Lib\n".to_string())),
        _ => panic!("a read was expected"),
    };
    let step = match step {
        Step::Probe(request) => {
            assert_eq!(request.path(), "/p/Lib.hs");
            request.resume(true)
        }
        _ => panic!("a probe was expected"),
    };
    let step = match step {
        Step::Canonicalize(request) => {
            assert_eq!(request.path(), "/p/Lib.hs");
            request.resume(Err("Too many levels of symbolic links".to_string()))
        }
        _ => panic!("a canonical path was expected to be asked for"),
    };
    match step {
        Step::Done(result) => assert_eq!(result, Ok(vec![external("Lib")])),
        _ => panic!("the end was expected"),
    }
}

#[test]
fn file_without_directory_fails_in_agda_and_typescript() {
    let step = Traversal::begin(LanguageKind::Agda, true, "/");
    let step = match step {
        Step::Read(request) => request.resume(Ok("open import Helpers\n".to_string())),
        _ => panic!("a read was expected"),
    };
    match step {
        Step::Done(result) => {
            assert_eq!(result, Err("Failed to get parent directory".to_string()))
        }
        _ => panic!("the end was expected"),
    }
    let step = Traversal::begin(LanguageKind::TypeScript, true, "");
    let step = match step {
        Step::Read(request) => request.resume(Ok("import a from './a';\n".to_string())),
        _ => panic!("a read was expected"),
    };
    match step {
        Step::Done(result) => {
            assert_eq!(result, Err("Failed to get parent directory".to_string()))
        }
        _ => panic!("the end was expected"),
    }
}

#[test]
fn file_without_directory_has_only_external_imports_in_haskell() {
    let step = Traversal::begin(LanguageKind::Haskell, true, "/");
    let step = match step {
        Step::Read(request) => request.resume(Ok("import Lib\n".to_string())),
        _ => panic!("a read was expected"),
    };
    match step {
        Step::Done(result) => assert_eq!(result, Ok(vec![external("Lib")])),
        _ => panic!("the end was expected"),
    }
}

#[test]
fn entering_with_given_references_skips_the_pattern() {
    let step = Traversal::begin(LanguageKind::TypeScript, true, "/proj/main.ts");
    let step = match step {
        Step::Read(request) => {
            assert_eq!(request.path(), "/proj/main.ts");
            request.enter(vec!["react".to_string(), "react".to_string(), "vue".to_string()])
        }
        _ => panic!("a read was expected"),
    };
    match step {
        Step::Done(result) => assert_eq!(result, Ok(vec![external("react"), external("vue")])),
        _ => panic!("the end was expected"),
    }
}

#[test]
fn many_references_in_one_file() {
    let mut text = String::new();
    let mut expected = Vec::new();
    for i in 0..3000 {
        text.push_str(&format!("import p{} from 'package-{}';\n", i, i % 1500));
    }
    for i in 0..1500 {
        expected.push(external(&format!("package-{}", i)));
    }
    let files = Files::new(&[("/proj/main.ts", text.as_str())]);
    assert_eq!(analyse("ts", "/proj/main.ts", true, &files), Ok(expected));
    assert_eq!(analyse("ts", "/proj/main.ts", false, &files), Ok(vec![]));
}

#[test]
fn long_chain_of_imports() {
    let mut entries: Vec<(String, String)> = Vec::new();
    let mut expected = Vec::new();
    for i in 0..1000 {
        let text = if i + 1 < 1000 { format!("open import M{}\n", i + 1) } else { String::new() };
        entries.push((format!("/proj/M{}.agda", i), text));
        if i > 0 {
            expected.push(local(&format!("/proj/M{}.agda", i)));
        }
    }
    let borrowed: Vec<(&str, &str)> =
        entries.iter().map(|(path, text)| (path.as_str(), text.as_str())).collect();
    let files = Files::new(&borrowed);
    assert_eq!(analyse("agda", "/proj/M0.agda", true, &files), Ok(expected));
}

#[test]
fn file_without_directory_and_many_imports_in_haskell() {
    let mut text = String::new();
    let mut expected = Vec::new();
    for i in 0..2000 {
        text.push_str(&format!("import Lib{}\n", i));
        expected.push(external(&format!("Lib{}", i)));
    }
    let step = Traversal::begin(LanguageKind::Haskell, true, "/");
    let step = match step {
        Step::Read(request) => request.resume(Ok(text)),
        _ => panic!("a read was expected"),
    };
    match step {
        Step::Done(result) => assert_eq!(result, Ok(expected)),
        _ => panic!("the end was expected"),
    }
}

#[test]
fn empty_file_has_no_dependencies() {
    let files = Files::new(&[("/proj/Main.hs", "")]);
    assert_eq!(analyse("haskell", "/proj/Main.hs", true, &files), Ok(vec![]));
}

#[test]
fn same_text_local_and_external_are_different_dependencies() {
    assert_ne!(local("x"), external("x"));
    assert_eq!(local("x"), local("x"));
    assert_eq!(external("x"), external("x"));
    assert_ne!(local("x"), local("y"));
    assert_ne!(external("x"), external("y"));
    assert_eq!(local("x").clone(), local("x"));
}
