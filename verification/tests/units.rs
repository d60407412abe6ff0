use wgsl_oil::emit::{emit, finish, load, Declaration};
use wgsl_oil::flatten::{flatten, is_star, FlattenedUnit, ImportRecord, Origin};
use wgsl_oil::locate::locate;
use wgsl_oil::path::{Location, ModuleId, ProjectRoot};
use wgsl_oil::sources::{build, SourceSet};
use wgsl_oil::validate::{validate, Diagnostic, Finding, ValidationResult, WildcardPolicy};

fn bytes(text: &str) -> Vec<u8> {
    text.as_bytes().to_vec()
}

fn module(path: &str) -> ModuleId {
    ModuleId::new(bytes(path))
}

fn project() -> ProjectRoot {
    ProjectRoot::new(bytes("/proj"))
}

fn unit(files: &[(&str, &str)], request: &str) -> FlattenedUnit {
    let mut set = SourceSet::new();
    for (path, text) in files {
        set.insert(module(path), bytes(text));
    }
    let graph = build(&set, &project(), &module("/proj/host.rs"), &bytes(request)).unwrap();
    flatten(graph)
}

fn place(path: &str, line: usize, column: usize) -> Location {
    Location { module: module(path), line, column }
}

fn findings_of(result: ValidationResult) -> Vec<Diagnostic> {
    match result {
        ValidationResult::Valid(_) => Vec::new(),
        ValidationResult::Invalid(found) => found,
    }
}

fn count(text: &[u8], part: &[u8]) -> usize {
    text.windows(part.len()).filter(|window| *window == part).count()
}

#[test]
fn bodies_are_merged_dependencies_first() {
    let merged = unit(
        &[
            ("/proj/main", "#import \"lib\" {helper}\nfn main() { helper(); }\n"),
            ("/proj/lib", "#export {helper}\nfn helper() {}\n"),
        ],
        "main",
    );
    assert_eq!(merged.merged_text(), &bytes("fn helper() {}\nfn main() { helper(); }\n"));
    assert_eq!(merged.body_starts(), &vec![0, 15]);
    assert_eq!(merged.module_graph().len(), 2);
}

#[test]
fn diamond_body_appears_exactly_once() {
    let merged = unit(
        &[
            ("/proj/a", "#import \"b\" {*}\n#import \"c\" {*}\nfn a() {}\n"),
            ("/proj/b", "#import \"d\" {*}\nfn b() {}\n"),
            ("/proj/c", "#import \"d\" {*}\nfn c() {}\n"),
            ("/proj/d", "fn shared_by_both() {}\n"),
        ],
        "a",
    );
    let text = merged.merged_text();
    assert_eq!(count(text, b"fn shared_by_both() {}\n"), 1);
    assert_eq!(text, &bytes("fn shared_by_both() {}\nfn b() {}\nfn c() {}\nfn a() {}\n"));
}

#[test]
fn module_without_directives_is_merged_verbatim() {
    let source = "// plain\nfn main() {}\n\n";
    let merged = unit(&[("/proj/main", source)], "main");
    assert_eq!(merged.merged_text(), &bytes(source));
}

#[test]
fn exports_are_recorded_with_their_origin() {
    let merged = unit(
        &[
            ("/proj/main", "#import \"lib\" {foo}\n#export {main}\n"),
            ("/proj/lib", "\n#export {foo, bar}\n"),
        ],
        "main",
    );
    assert_eq!(
        merged.exported_names(),
        &vec![
            Origin { name: bytes("foo"), module: module("/proj/lib"), line: 2, column: 10 },
            Origin { name: bytes("bar"), module: module("/proj/lib"), line: 2, column: 15 },
            Origin { name: bytes("main"), module: module("/proj/main"), line: 2, column: 10 },
        ]
    );
}

#[test]
fn named_imports_are_recorded_with_what_the_exports_say() {
    let merged = unit(
        &[
            ("/proj/main", "#import \"x\" {foo, gone}\n#import \"y\" {*, foo, bar}\n"),
            ("/proj/x", "#export {foo}\n"),
            ("/proj/y", "#export {bar}\n"),
        ],
        "main",
    );
    let record = |name: &str, target: &str, line, column, declared, elsewhere, wildcard| ImportRecord {
        name: bytes(name),
        module: module("/proj/main"),
        target: module(target),
        line,
        column,
        declared,
        elsewhere,
        wildcard,
    };
    assert_eq!(
        merged.named_imports(),
        &vec![
            record("foo", "/proj/x", 1, 14, true, true, false),
            record("gone", "/proj/x", 1, 19, false, false, false),
            record("foo", "/proj/y", 2, 17, false, true, true),
            record("bar", "/proj/y", 2, 22, true, true, true),
        ]
    );
}

#[test]
fn star_is_the_wildcard() {
    assert!(is_star(&bytes("*")));
    assert!(!is_star(&bytes("**")));
    assert!(!is_star(&bytes("a")));
    assert!(!is_star(&bytes("")));
}

#[test]
fn undeclared_import_is_found_once() {
    let merged = unit(
        &[("/proj/y", "#import \"x\" {bar}\nfn y() { foo(); }\n"), ("/proj/x", "#export {foo}\nfn foo() {}\n")],
        "y",
    );
    let found = findings_of(validate(merged, WildcardPolicy::Suppress, &Vec::new()));
    assert_eq!(
        found,
        vec![Diagnostic::UndeclaredImport {
            name: bytes("bar"),
            target: module("/proj/x"),
            at: place("/proj/y", 1, 14),
        }]
    );
}

#[test]
fn declared_import_is_fine() {
    let merged = unit(
        &[("/proj/y", "#import \"x\" {foo}\nfn y() { foo(); }\n"), ("/proj/x", "#export {foo}\nfn foo() {}\n")],
        "y",
    );
    match validate(merged, WildcardPolicy::Union, &Vec::new()) {
        ValidationResult::Valid(unit) => {
            assert_eq!(unit.merged_text(), &bytes("fn foo() {}\nfn y() { foo(); }\n"))
        }
        ValidationResult::Invalid(found) => panic!("findings: {:?}", found),
    }
}

#[test]
fn duplicate_export_names_both_places() {
    let merged = unit(
        &[
            ("/proj/main", "#import \"a\" {*}\n#import \"b\" {*}\n"),
            ("/proj/a", "#export {shared}\n"),
            ("/proj/b", "// b\n#export {other, shared}\n"),
        ],
        "main",
    );
    let found = findings_of(validate(merged, WildcardPolicy::Suppress, &Vec::new()));
    assert_eq!(
        found,
        vec![Diagnostic::DuplicateExport {
            name: bytes("shared"),
            first: place("/proj/a", 1, 10),
            second: place("/proj/b", 2, 17),
        }]
    );
}

#[test]
fn name_exported_by_three_modules_gives_a_finding_for_every_pair() {
    let merged = unit(
        &[
            ("/proj/main", "#import \"a\" {*}\n#import \"b\" {*}\n#export {s}\n"),
            ("/proj/a", "#export {s}\n"),
            ("/proj/b", "#export {s}\n"),
        ],
        "main",
    );
    let found = findings_of(validate(merged, WildcardPolicy::Suppress, &Vec::new()));
    let pair = |first: &str, first_line, second: &str, second_line| Diagnostic::DuplicateExport {
        name: bytes("s"),
        first: place(first, first_line, 10),
        second: place(second, second_line, 10),
    };
    assert_eq!(
        found,
        vec![
            pair("/proj/a", 1, "/proj/b", 1),
            pair("/proj/a", 1, "/proj/main", 3),
            pair("/proj/b", 1, "/proj/main", 3),
        ]
    );
}

#[test]
fn wildcard_policy_decides_on_names_beside_a_wildcard() {
    let files = [
        ("/proj/main", "#import \"x\" {*, here, there, nowhere}\n#import \"y\" {*}\n"),
        ("/proj/x", "#export {here}\n"),
        ("/proj/y", "#export {there}\n"),
    ];
    let lenient = findings_of(validate(unit(&files, "main"), WildcardPolicy::Suppress, &Vec::new()));
    assert_eq!(lenient, vec![]);
    let strict = findings_of(validate(unit(&files, "main"), WildcardPolicy::Union, &Vec::new()));
    assert_eq!(
        strict,
        vec![Diagnostic::UndeclaredImport {
            name: bytes("nowhere"),
            target: module("/proj/x"),
            at: place("/proj/main", 1, 30),
        }]
    );
}

#[test]
fn all_findings_are_collected() {
    let merged = unit(
        &[
            ("/proj/main", "#import \"a\" {nope}\n#import \"b\" {nada}\n#export {s}\n"),
            ("/proj/a", "#export {s}\n"),
            ("/proj/b", "b\n"),
        ],
        "main",
    );
    let found = findings_of(validate(
        merged,
        WildcardPolicy::Suppress,
        &vec![Finding { offset: 0, message: bytes("unexpected token") }],
    ));
    assert_eq!(
        found,
        vec![
            Diagnostic::DuplicateExport {
                name: bytes("s"),
                first: place("/proj/a", 1, 10),
                second: place("/proj/main", 3, 10),
            },
            Diagnostic::UndeclaredImport {
                name: bytes("nope"),
                target: module("/proj/a"),
                at: place("/proj/main", 1, 14),
            },
            Diagnostic::UndeclaredImport {
                name: bytes("nada"),
                target: module("/proj/b"),
                at: place("/proj/main", 2, 14),
            },
            Diagnostic::UnderlyingLanguageError {
                message: bytes("unexpected token"),
                place: Some(place("/proj/b", 1, 1)),
            },
        ]
    );
}

#[test]
fn offsets_map_back_to_file_line_and_column() {
    let merged = unit(
        &[
            ("/proj/main", "// top\n#import \"lib\" {helper}\n\nfn main() {\n  helper();\n}\n"),
            ("/proj/lib", "#export {helper}\nfn helper() {}\n"),
        ],
        "main",
    );
    let text = merged.merged_text().clone();
    assert_eq!(text, bytes("fn helper() {}\n// top\n\nfn main() {\n  helper();\n}\n"));
    assert_eq!(locate(&merged, 0), Some(place("/proj/lib", 2, 1)));
    assert_eq!(locate(&merged, 3), Some(place("/proj/lib", 2, 4)));
    assert_eq!(locate(&merged, 14), Some(place("/proj/lib", 2, 15)));
    assert_eq!(locate(&merged, 15), Some(place("/proj/main", 1, 1)));
    assert_eq!(locate(&merged, 22), Some(place("/proj/main", 3, 1)));
    assert_eq!(locate(&merged, 23), Some(place("/proj/main", 4, 1)));
    let call = text.windows(9).position(|w| w == b"helper();").unwrap();
    assert_eq!(locate(&merged, call), Some(place("/proj/main", 5, 3)));
    assert_eq!(locate(&merged, text.len() - 1), Some(place("/proj/main", 6, 2)));
    assert_eq!(locate(&merged, text.len()), None);
    assert_eq!(locate(&merged, text.len() + 100), None);
}

#[test]
fn finding_behind_the_text_has_no_place() {
    let merged = unit(&[("/proj/main", "x")], "main");
    let found = findings_of(validate(
        merged,
        WildcardPolicy::Suppress,
        &vec![Finding { offset: 1, message: bytes("unexpected end") }],
    ));
    assert_eq!(
        found,
        vec![Diagnostic::UnderlyingLanguageError { message: bytes("unexpected end"), place: None }]
    );
}

#[test]
fn valid_unit_is_emitted_as_one_declaration() {
    let merged = unit(&[("/proj/main", "fn main() {}\n")], "main");
    let result = validate(merged, WildcardPolicy::Suppress, &Vec::new());
    assert_eq!(
        emit(&result),
        vec![Declaration { name: bytes("SOURCE"), text: bytes("fn main() {}\n") }]
    );
}

#[test]
fn invalid_unit_emits_nothing() {
    let merged = unit(&[("/proj/y", "#import \"x\" {bar}\n"), ("/proj/x", "#export {foo}\n")], "y");
    let result = validate(merged, WildcardPolicy::Suppress, &Vec::new());
    assert_eq!(emit(&result), vec![]);
}

#[test]
fn load_then_finish_is_the_whole_pass() {
    let mut set = SourceSet::new();
    set.insert(module("/proj/main"), bytes("#import \"lib\" {f}\nmain\n"));
    set.insert(module("/proj/lib"), bytes("#export {f}\nlib\n"));
    let unit = load(&set, &project(), &module("/proj/host.rs"), &bytes("main")).unwrap();
    let rejected = finish(
        unit,
        WildcardPolicy::Suppress,
        &vec![Finding { offset: 5, message: bytes("bad") }],
    );
    assert_eq!(
        rejected,
        Err(vec![Diagnostic::UnderlyingLanguageError {
            message: bytes("bad"),
            place: Some(place("/proj/main", 2, 2)),
        }])
    );
    let unit = load(&set, &project(), &module("/proj/host.rs"), &bytes("main")).unwrap();
    assert_eq!(
        finish(unit, WildcardPolicy::Suppress, &Vec::new()),
        Ok(vec![Declaration { name: bytes("SOURCE"), text: bytes("lib\nmain\n") }])
    );
}

#[test]
fn name_asked_for_twice_in_one_import_is_one_finding() {
    let merged = unit(
        &[("/proj/y", "#import \"x\" {bar, bar}\n"), ("/proj/x", "#export {foo}\n")],
        "y",
    );
    let found = findings_of(validate(merged, WildcardPolicy::Suppress, &Vec::new()));
    assert_eq!(
        found,
        vec![Diagnostic::UndeclaredImport {
            name: bytes("bar"),
            target: module("/proj/x"),
            at: place("/proj/y", 1, 14),
        }]
    );
}

#[test]
fn module_with_an_empty_body_covers_no_offset() {
    let merged = unit(
        &[
            ("/proj/main", "#import \"only\" {x}\nmain\n"),
            ("/proj/only", "#export {x}"),
        ],
        "main",
    );
    assert_eq!(merged.merged_text(), &bytes("main\n"));
    assert_eq!(merged.body_starts(), &vec![0, 0]);
    assert_eq!(locate(&merged, 0), Some(place("/proj/main", 2, 1)));
    assert_eq!(locate(&merged, 4), Some(place("/proj/main", 2, 5)));
    assert_eq!(locate(&merged, 5), None);
}

#[test]
fn declared_import_beside_an_undeclared_one_changes_no_finding() {
    let x = ("/proj/x", "#export {foo}\nfn foo() {}\n");
    let before = unit(&[("/proj/y", "#import \"x\" {bar}\nfn y() {}\n"), x], "y");
    let after = unit(
        &[("/proj/y", "#import \"x\" {bar}\nfn y() { foo(); }\n#import \"x\" {foo}\n"), x],
        "y",
    );
    assert_eq!(after.merged_text(), &bytes("fn foo() {}\nfn y() { foo(); }\n"));
    let found_before = findings_of(validate(before, WildcardPolicy::Suppress, &Vec::new()));
    let found_after = findings_of(validate(after, WildcardPolicy::Suppress, &Vec::new()));
    assert_eq!(found_before, found_after);
    assert_eq!(
        found_after,
        vec![Diagnostic::UndeclaredImport {
            name: bytes("bar"),
            target: module("/proj/x"),
            at: place("/proj/y", 1, 14),
        }]
    );
}
