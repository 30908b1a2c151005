use depscan::cli::Cli;
use depscan::engine::{extract, holds_dependency, holds_text, plan};
use depscan::language::{Dependency, DependencyParser, Language, LanguageFactory, LanguageKind, Plan};
use depscan::engine::Step;
use depscan::paths::{directories, directory};
use depscan::pattern::{find_references, group_text, pick_groups};
use depscan::text::{begins_with, find_char, head_of, join_text, same_text, split_text};

fn texts(items: &[&str]) -> Vec<String> {
    items.iter().map(|s| s.to_string()).collect()
}

#[test]
fn registry_knows_four_names() {
    assert!(LanguageFactory::get_parser("agda").is_some());
    assert!(LanguageFactory::get_parser("haskell").is_some());
    assert!(LanguageFactory::get_parser("ts").is_some());
    assert!(LanguageFactory::get_parser("typescript").is_some());
}

#[test]
fn registry_rejects_other_names() {
    assert!(LanguageFactory::get_parser("").is_none());
    assert!(LanguageFactory::get_parser("Agda").is_none());
    assert!(LanguageFactory::get_parser("hs").is_none());
    assert!(LanguageFactory::get_parser("javascript").is_none());
    assert!(LanguageFactory::get_parser("ts ").is_none());
    assert!(LanguageFactory::get_parser("rust").is_none());
}

#[test]
fn registry_hands_out_the_parser_of_the_language() {
    let language = Language {
        name: "haskell".to_string(),
        file_extensions: vec![".haskell".to_string()],
        include_external: true,
    };
    let parser = LanguageFactory::get_parser("haskell").unwrap();
    let step = match parser.parse("/p/Main.hs", &language) {
        Step::Read(request) => {
            assert_eq!(request.path(), "/p/Main.hs");
            request.resume(Ok("open import Agda\nimport Haskell\nimport 'ts'\n".to_string()))
        }
        _ => panic!("a read was expected"),
    };
    match step {
        Step::Probe(request) => assert_eq!(request.path(), "/p/Haskell.hs"),
        _ => panic!("a probe was expected"),
    }
}

#[test]
fn cli_describes_its_language() {
    let cli = Cli {
        lang: "agda".to_string(),
        file: "Main.agda".to_string(),
        include_external: false,
        output: None,
        verbose: 0,
    };
    let language = cli.language();
    assert_eq!(language.name, "agda");
    assert_eq!(language.file_extensions, vec![".agda".to_string()]);
    assert!(!language.include_external);
}

#[test]
fn text_helpers() {
    assert!(same_text("abc", "abc"));
    assert!(!same_text("abc", "abd"));
    assert!(!same_text("abc", "ab"));
    assert_eq!(join_text("ab", "cd"), "abcd");
    assert_eq!(join_text("", ""), "");
    assert_eq!(find_char("a.b.c", '.', 0), 1);
    assert_eq!(find_char("a.b.c", '.', 2), 3);
    assert_eq!(find_char("a.b.c", '.', 4), 5);
    assert_eq!(find_char("", '.', 0), 0);
    assert_eq!(find_char("a.b", '.', 9), 3);
    assert_eq!(head_of("Data.List", '.'), "Data");
    assert_eq!(head_of("Helpers", '.'), "Helpers");
    assert_eq!(head_of(".x", '.'), "");
    assert!(begins_with("./x", '.'));
    assert!(!begins_with("x.", '.'));
    assert!(!begins_with("", '.'));
}

#[test]
fn splitting_keeps_empty_pieces() {
    assert_eq!(split_text("A.B.C", '.'), texts(&["A", "B", "C"]));
    assert_eq!(split_text("A", '.'), texts(&["A"]));
    assert_eq!(split_text("", '.'), texts(&[""]));
    assert_eq!(split_text("A.", '.'), texts(&["A", ""]));
    assert_eq!(split_text(".A", '.'), texts(&["", "A"]));
    assert_eq!(split_text("A..B", '.'), texts(&["A", "", "B"]));
    assert_eq!(split_text("é.ü", '.'), texts(&["é", "ü"]));
}

#[test]
fn directories_are_listed_innermost_first() {
    assert_eq!(directories("/a/b/c.txt"), texts(&["/a/b", "/a", "/"]));
    assert_eq!(directories("a/b.txt"), texts(&["a", ""]));
    assert_eq!(directories("b.txt"), texts(&[""]));
    assert_eq!(directories("/"), texts(&[]));
    assert_eq!(directories(""), texts(&[]));
    assert_eq!(directory("/a/b/c.txt"), Some("/a/b".to_string()));
    assert_eq!(directory("c.txt"), Some("".to_string()));
    assert_eq!(directory("/"), None);
}

#[test]
fn groups_are_picked_in_order_of_preference() {
    let found = vec![
        vec![Some("whole".to_string()), Some("one".to_string()), None],
        vec![Some("whole".to_string()), None, Some("two".to_string())],
        vec![Some("whole".to_string()), None, None],
        vec![Some("whole".to_string()), Some("a".to_string()), Some("b".to_string())],
        vec![Some("short".to_string())],
        vec![],
    ];
    assert_eq!(pick_groups(&found, 1, 2), texts(&["one", "two", "a"]));
    assert_eq!(pick_groups(&found, 2, 2), texts(&["two", "b"]));
    assert_eq!(pick_groups(&found, 1, 1), texts(&["one", "a"]));
    assert_eq!(pick_groups(&found, 0, 0), texts(&["whole", "whole", "whole", "whole", "short"]));
    assert_eq!(pick_groups(&found, 7, 9), texts(&[]));
    assert_eq!(pick_groups(&Vec::new(), 1, 2), texts(&[]));
    assert_eq!(group_text(&found[0], 1), Some("one".to_string()));
    assert_eq!(group_text(&found[0], 2), None);
    assert_eq!(group_text(&found[0], 3), None);
}

#[test]
fn references_are_found_by_pattern() {
    assert_eq!(find_references(r"(\d+)-(\w+)", "12-ab 7-c x-y", 1, 2), Ok(texts(&["12", "7"])));
    assert_eq!(find_references(r"(\d+)-(\w+)", "12-ab 7-c x-y", 2, 2), Ok(texts(&["ab", "c"])));
    assert_eq!(find_references(r"(a)|(b)", "abba", 1, 2), Ok(texts(&["a", "b", "b", "a"])));
    assert_eq!(find_references(r"x", "abc", 0, 0), Ok(texts(&[])));
}

#[test]
fn a_pattern_that_does_not_compile_is_reported() {
    match find_references(r"(unclosed", "text", 1, 1) {
        Err(message) => {
            assert!(message.starts_with("Failed to create regex: "));
            assert!(message.len() > "Failed to create regex: ".len());
        }
        Ok(_) => panic!("a failure was expected"),
    }
}

#[test]
fn extraction_and_plans_go_by_language() {
    let content = "open import A\nimport B\nimport c from './c'\n";
    assert_eq!(extract(LanguageKind::Agda, content), Ok(texts(&["A"])));
    assert_eq!(extract(LanguageKind::Haskell, content), Ok(texts(&["B", "c"])));
    assert_eq!(extract(LanguageKind::TypeScript, content), Ok(texts(&["./c"])));
    assert!(matches!(plan(LanguageKind::Agda, "/p/M.agda", "Data.X"), Plan::External));
    assert!(matches!(plan(LanguageKind::Haskell, "/p/M.hs", "Data.X"), Plan::Resolve(_)));
    assert!(matches!(plan(LanguageKind::TypeScript, "/p/m.ts", "Data.X"), Plan::External));
}

#[test]
fn membership() {
    let names = texts(&["a", "b"]);
    assert!(holds_text(&names, &"a".to_string()));
    assert!(holds_text(&names, &"b".to_string()));
    assert!(!holds_text(&names, &"c".to_string()));
    assert!(!holds_text(&Vec::new(), &"a".to_string()));
    let found = vec![Dependency::Local("a".to_string()), Dependency::External("b".to_string())];
    assert!(holds_dependency(&found, &Dependency::Local("a".to_string())));
    assert!(!holds_dependency(&found, &Dependency::External("a".to_string())));
    assert!(holds_dependency(&found, &Dependency::External("b".to_string())));
    assert!(!holds_dependency(&found, &Dependency::Local("b".to_string())));
}
