use wgsl_oil::graph::{find_module, LoadError, ModuleGraph};
use wgsl_oil::loader::{Loader, Progress};
use wgsl_oil::path::{Location, ModuleId, ProjectRoot};
use wgsl_oil::sources::{build, resolve_existing, SourceSet};

fn bytes(text: &str) -> Vec<u8> {
    text.as_bytes().to_vec()
}

fn module(path: &str) -> ModuleId {
    ModuleId::new(bytes(path))
}

fn project() -> ProjectRoot {
    ProjectRoot::new(bytes("/proj"))
}

fn sources(files: &[(&str, &str)]) -> SourceSet {
    let mut set = SourceSet::new();
    for (path, text) in files {
        set.insert(module(path), bytes(text));
    }
    set
}

fn load(files: &[(&str, &str)], request: &str) -> Result<ModuleGraph, LoadError> {
    build(&sources(files), &project(), &module("/proj/host.rs"), &bytes(request))
}

fn place(path: &str, line: usize, column: usize) -> Location {
    Location { module: module(path), line, column }
}

fn names(graph: &ModuleGraph) -> Vec<String> {
    (0..graph.len())
        .map(|i| String::from_utf8(graph.node(i).id.as_bytes().clone()).unwrap())
        .collect()
}

#[test]
fn single_module_is_a_graph_of_one() {
    let graph = load(&[("/proj/main", "fn main() {}\n")], "main").unwrap();
    assert_eq!(names(&graph), vec!["/proj/main"]);
    assert!(graph.node(0).targets.is_empty());
    assert_eq!(graph.node(0).source, bytes("fn main() {}\n"));
    assert_eq!(graph.project_root(), &project());
}

#[test]
fn dependencies_stand_before_dependents() {
    let graph = load(
        &[
            ("/proj/main", "#import \"lib/a\" {a}\nmain\n"),
            ("/proj/lib/a", "#import \"b\" {b}\n#export {a}\na\n"),
            ("/proj/lib/b", "#export {b}\nb\n"),
        ],
        "main",
    )
    .unwrap();
    assert_eq!(names(&graph), vec!["/proj/lib/b", "/proj/lib/a", "/proj/main"]);
    assert_eq!(graph.node(1).targets, vec![0]);
    assert_eq!(graph.node(2).targets, vec![1]);
}

#[test]
fn diamond_holds_the_shared_module_once() {
    let graph = load(
        &[
            ("/proj/a", "#import \"b\" {*}\n#import \"c\" {*}\nA\n"),
            ("/proj/b", "#import \"d\" {*}\nB\n"),
            ("/proj/c", "#import \"d\" {*}\nC\n"),
            ("/proj/d", "D\n"),
        ],
        "a",
    )
    .unwrap();
    assert_eq!(names(&graph), vec!["/proj/d", "/proj/b", "/proj/c", "/proj/a"]);
    assert_eq!(graph.node(1).targets, vec![0]);
    assert_eq!(graph.node(2).targets, vec![0]);
    assert_eq!(graph.node(3).targets, vec![1, 2]);
}

#[test]
fn module_imported_twice_by_one_module_is_read_once() {
    let graph = load(
        &[("/proj/a", "#import \"b\" {x}\n#import \"./b\" {y}\n"), ("/proj/b", "#export {x, y}\n")],
        "a",
    )
    .unwrap();
    assert_eq!(names(&graph), vec!["/proj/b", "/proj/a"]);
    assert_eq!(graph.node(1).targets, vec![0, 0]);
}

#[test]
fn files_that_are_not_imported_stay_out() {
    let graph = load(&[("/proj/a", "A\n"), ("/proj/unused", "#export {\n")], "a").unwrap();
    assert_eq!(names(&graph), vec!["/proj/a"]);
}

#[test]
fn self_import_is_a_cycle_of_one() {
    let failed = load(&[("/proj/a", "#import \"a\" {*}\n")], "a");
    assert_eq!(failed.err(), Some(LoadError::ImportCycle { cycle: vec![place("/proj/a", 1, 10)] }));
}

#[test]
fn cycle_is_reported_in_full() {
    let failed = load(
        &[
            ("/proj/main", "#import \"a\" {*}\n"),
            ("/proj/a", "#import \"b\" {*}\n"),
            ("/proj/b", "#import \"c\" {*}\n"),
            ("/proj/c", "#import \"a\" {*}\n"),
        ],
        "main",
    );
    assert_eq!(
        failed.err(),
        Some(LoadError::ImportCycle {
            cycle: vec![place("/proj/a", 1, 10), place("/proj/b", 1, 10), place("/proj/c", 1, 10)],
        })
    );
}

#[test]
fn cycle_behind_a_finished_module_is_found() {
    let failed = load(
        &[
            ("/proj/main", "#import \"leaf\" {*}\n#import \"a\" {*}\n"),
            ("/proj/leaf", "leaf\n"),
            ("/proj/a", "#import \"leaf\" {*}\n#import \"main\" {*}\n"),
        ],
        "main",
    );
    assert_eq!(
        failed.err(),
        Some(LoadError::ImportCycle {
            cycle: vec![place("/proj/main", 2, 10), place("/proj/a", 2, 10)],
        })
    );
}

#[test]
fn missing_entry_module_is_unresolved() {
    let failed = load(&[("/proj/other", "x\n")], "main");
    assert_eq!(
        failed.err(),
        Some(LoadError::UnresolvedPath {
            importer: module("/proj/host.rs"),
            reference: bytes("main"),
            at: None,
        })
    );
}

#[test]
fn missing_import_is_unresolved() {
    let failed = load(&[("/proj/main", "#import \"gone\" {x}\n")], "main");
    assert_eq!(
        failed.err(),
        Some(LoadError::UnresolvedPath {
            importer: module("/proj/main"),
            reference: bytes("gone"),
            at: Some(place("/proj/main", 1, 10)),
        })
    );
}

#[test]
fn import_that_leaves_the_root_is_unresolved() {
    let failed = load(&[("/proj/main", "#import \"../secret\" {x}\n"), ("/secret", "s\n")], "main");
    assert_eq!(
        failed.err(),
        Some(LoadError::UnresolvedPath {
            importer: module("/proj/main"),
            reference: bytes("../secret"),
            at: Some(place("/proj/main", 1, 10)),
        })
    );
}

#[test]
fn request_that_leaves_the_root_is_unresolved() {
    let failed = load(&[("/proj/main", "x\n")], "../../main");
    assert_eq!(
        failed.err(),
        Some(LoadError::UnresolvedPath {
            importer: module("/proj/host.rs"),
            reference: bytes("../../main"),
            at: None,
        })
    );
}

#[test]
fn malformed_directive_in_a_dependency_stops_the_load() {
    let failed = load(
        &[("/proj/main", "#import \"lib\" {x}\n"), ("/proj/lib", "fine\n\t#export x\n")],
        "main",
    );
    assert_eq!(
        failed.err(),
        Some(LoadError::MalformedDirective { module: module("/proj/lib"), line: 2, column: 2 })
    );
}

#[test]
fn later_file_replaces_earlier_file_of_the_same_module() {
    let mut set = SourceSet::new();
    set.insert(module("/proj/a"), bytes("old\n"));
    set.insert(module("/proj/a"), bytes("new\n"));
    assert_eq!(set.get(&module("/proj/a")), Some(&bytes("new\n")));
    assert_eq!(set.get(&module("/proj/b")), None);
}

#[test]
fn loader_asks_for_each_module_once() {
    let files = [
        ("/proj/a", "#import \"b\" {*}\n#import \"c\" {*}\n"),
        ("/proj/b", "#import \"d\" {*}\n"),
        ("/proj/c", "#import \"d\" {*}\n"),
        ("/proj/d", "D\n"),
    ];
    let set = sources(&files);
    let mut asked: Vec<String> = Vec::new();
    let mut progress = Loader::start(project(), module("/proj/host.rs"), bytes("a"));
    let graph = loop {
        match progress {
            Progress::Need(loader) => {
                let wanted = loader.wanted_module().duplicate();
                asked.push(String::from_utf8(wanted.as_bytes().clone()).unwrap());
                let contents = set.get(&wanted).cloned();
                progress = loader.supply(contents);
            }
            Progress::Finished(graph) => break graph,
            Progress::Failed(error) => panic!("failed: {:?}", error),
        }
    };
    assert_eq!(asked, vec!["/proj/a", "/proj/b", "/proj/d", "/proj/c"]);
    assert_eq!(graph.len(), 4);
}

#[test]
fn loader_fails_when_told_that_a_file_is_missing() {
    let progress = Loader::start(project(), module("/proj/host.rs"), bytes("a"));
    let loader = match progress {
        Progress::Need(loader) => loader,
        _ => panic!("the entry module should be asked for"),
    };
    assert_eq!(loader.wanted_module(), &module("/proj/a"));
    match loader.supply(None) {
        Progress::Failed(error) => assert_eq!(
            error,
            LoadError::UnresolvedPath {
                importer: module("/proj/host.rs"),
                reference: bytes("a"),
                at: None,
            }
        ),
        _ => panic!("a missing file should fail the load"),
    }
}

#[test]
fn modules_are_found_by_identity() {
    let graph = load(&[("/proj/a", "#import \"b\" {*}\n"), ("/proj/b", "B\n")], "a").unwrap();
    let nodes = vec![graph.node(0), graph.node(1)];
    assert_eq!(nodes[0].id, module("/proj/b"));
    assert_eq!(nodes[1].id, module("/proj/a"));
    let list = vec![];
    assert_eq!(find_module(&list, &module("/proj/a")), None);
}

#[test]
fn reference_resolves_to_a_module_that_exists() {
    let set = sources(&[("/proj/lib/a", "a\n")]);
    assert_eq!(
        resolve_existing(&set, &module("/proj/main"), &bytes("lib/a"), &project()),
        Ok(module("/proj/lib/a"))
    );
    assert_eq!(
        resolve_existing(&set, &module("/proj/main"), &bytes("lib/b"), &project()),
        Err(LoadError::UnresolvedPath {
            importer: module("/proj/main"),
            reference: bytes("lib/b"),
            at: None,
        })
    );
    assert_eq!(
        resolve_existing(&set, &module("/proj/main"), &bytes("../lib/a"), &project()),
        Err(LoadError::UnresolvedPath {
            importer: module("/proj/main"),
            reference: bytes("../lib/a"),
            at: None,
        })
    );
}

#[test]
fn unresolved_import_names_the_place_of_the_reference() {
    let failed = load(
        &[("/proj/main", "fn main() {}\n\n   #import   \"lib/gone\" {x}\n")],
        "main",
    );
    assert_eq!(
        failed.err(),
        Some(LoadError::UnresolvedPath {
            importer: module("/proj/main"),
            reference: bytes("lib/gone"),
            at: Some(place("/proj/main", 3, 15)),
        })
    );
}
