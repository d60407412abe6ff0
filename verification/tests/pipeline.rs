use wgsl_oil::emit::{resolve_and_emit, Failure};
use wgsl_oil::path::{Location, ModuleId, ProjectRoot};
use wgsl_oil::sources::SourceSet;
use wgsl_oil::validate::WildcardPolicy;

fn module(path: &str) -> ModuleId {
    ModuleId::new(path.as_bytes().to_vec())
}

fn project() -> ProjectRoot {
    ProjectRoot::new(b"/proj".to_vec())
}

#[test]
fn helper_import_emits_library_then_main() {
    let mut sources = SourceSet::new();
    sources.insert(
        module("/proj/main"),
        b"#import \"lib\" {helper}\nfn main() { helper(); }\n".to_vec(),
    );
    sources.insert(module("/proj/lib"), b"#export {helper}\nfn helper() {}\n".to_vec());
    let emitted = resolve_and_emit(
        &sources,
        &project(),
        &module("/proj/host.rs"),
        &b"main".to_vec(),
        WildcardPolicy::Suppress,
    );
    match emitted {
        Ok(declarations) => {
            assert_eq!(declarations.len(), 1);
            assert_eq!(declarations[0].name, b"SOURCE".to_vec());
            assert_eq!(
                declarations[0].text,
                b"fn helper() {}\nfn main() { helper(); }\n".to_vec()
            );
        }
        Err(Failure::Load(error)) => panic!("load failed: {:?}", error),
        Err(Failure::Invalid(found)) => panic!("invalid: {:?}", found),
    }
}

#[test]
fn cycle_never_reaches_flattening() {
    let mut sources = SourceSet::new();
    sources.insert(module("/proj/a"), b"#import \"b\" {*}\nfn a() {}\n".to_vec());
    sources.insert(module("/proj/b"), b"#import \"a\" {*}\nfn b() {}\n".to_vec());
    let emitted = resolve_and_emit(
        &sources,
        &project(),
        &module("/proj/host.rs"),
        &b"a".to_vec(),
        WildcardPolicy::Suppress,
    );
    assert_eq!(
        emitted,
        Err(Failure::Load(wgsl_oil::graph::LoadError::ImportCycle {
            cycle: vec![
                Location { module: module("/proj/a"), line: 1, column: 10 },
                Location { module: module("/proj/b"), line: 1, column: 10 },
            ],
        }))
    );
}

#[test]
fn invalid_unit_hands_back_findings_and_no_declaration() {
    let mut sources = SourceSet::new();
    sources.insert(module("/proj/y"), b"#import \"x\" {bar}\nfn y() {}\n".to_vec());
    sources.insert(module("/proj/x"), b"#export {foo}\nfn foo() {}\n".to_vec());
    let emitted = resolve_and_emit(
        &sources,
        &project(),
        &module("/proj/host.rs"),
        &b"y".to_vec(),
        WildcardPolicy::Suppress,
    );
    match emitted {
        Err(Failure::Invalid(found)) => assert_eq!(found.len(), 1),
        other => panic!("expected findings, got {:?}", other),
    }
}

#[test]
fn rooted_request_is_resolved_below_the_project_root() {
    let mut sources = SourceSet::new();
    sources.insert(module("/proj/shaders/main"), b"#import \"/shared/lib\" {*}\nmain\n".to_vec());
    sources.insert(module("/proj/shared/lib"), b"lib\n".to_vec());
    let emitted = resolve_and_emit(
        &sources,
        &project(),
        &module("/proj/src/deep/host.rs"),
        &b"/shaders/main".to_vec(),
        WildcardPolicy::Suppress,
    )
    .unwrap();
    assert_eq!(emitted[0].text, b"lib\nmain\n".to_vec());
}
