use wgsl_oil::graph::LoadError;
use wgsl_oil::path::{Location, ModuleId};
use wgsl_oil::report::{append_decimal, describe, describe_load_error};
use wgsl_oil::validate::Diagnostic;

fn bytes(text: &str) -> Vec<u8> {
    text.as_bytes().to_vec()
}

fn module(path: &str) -> ModuleId {
    ModuleId::new(bytes(path))
}

fn place(path: &str, line: usize, column: usize) -> Location {
    Location { module: module(path), line, column }
}

fn decimal(n: usize) -> String {
    let mut out = bytes("n=");
    append_decimal(&mut out, n);
    String::from_utf8(out).unwrap()
}

fn load_message(error: LoadError) -> String {
    String::from_utf8(describe_load_error(&error)).unwrap()
}

fn message(found: Diagnostic) -> String {
    String::from_utf8(describe(&found)).unwrap()
}

#[test]
fn numbers_are_written_in_decimal() {
    assert_eq!(decimal(0), "n=0");
    assert_eq!(decimal(7), "n=7");
    assert_eq!(decimal(10), "n=10");
    assert_eq!(decimal(1203), "n=1203");
    assert_eq!(decimal(usize::MAX), format!("n={}", usize::MAX));
}

#[test]
fn unresolved_path_names_importer_and_reference() {
    assert_eq!(
        load_message(LoadError::UnresolvedPath {
            importer: module("/proj/host.rs"),
            reference: bytes("../gone.wgsl"),
            at: None,
        }),
        "/proj/host.rs: cannot resolve `../gone.wgsl`"
    );
    assert_eq!(
        load_message(LoadError::UnresolvedPath {
            importer: module("/proj/main.wgsl"),
            reference: bytes("../gone.wgsl"),
            at: Some(place("/proj/main.wgsl", 4, 10)),
        }),
        "/proj/main.wgsl:4:10: cannot resolve `../gone.wgsl`"
    );
}

#[test]
fn malformed_directive_names_module_line_and_column() {
    assert_eq!(
        load_message(LoadError::MalformedDirective {
            module: module("/proj/lib.wgsl"),
            line: 12,
            column: 3,
        }),
        "/proj/lib.wgsl:12:3: malformed directive"
    );
}

#[test]
fn import_cycle_is_written_as_a_ring() {
    assert_eq!(
        load_message(LoadError::ImportCycle {
            cycle: vec![place("/proj/a", 1, 10), place("/proj/b", 12, 11), place("/proj/c", 3, 10)],
        }),
        "import cycle: /proj/a:1:10 -> /proj/b:12:11 -> /proj/c:3:10 -> /proj/a"
    );
    assert_eq!(
        load_message(LoadError::ImportCycle { cycle: vec![place("/proj/a", 2, 10)] }),
        "import cycle: /proj/a:2:10 -> /proj/a"
    );
}

#[test]
fn duplicate_export_names_both_places_in_its_message() {
    assert_eq!(
        message(Diagnostic::DuplicateExport {
            name: bytes("shared"),
            first: place("/proj/a", 1, 10),
            second: place("/proj/b", 20, 17),
        }),
        "/proj/b:20:17: `shared` is exported twice, first at /proj/a:1:10"
    );
}

#[test]
fn undeclared_import_names_the_module_asked() {
    assert_eq!(
        message(Diagnostic::UndeclaredImport {
            name: bytes("bar"),
            target: module("/proj/x"),
            at: place("/proj/y", 1, 14),
        }),
        "/proj/y:1:14: `bar` is not exported by /proj/x"
    );
}

#[test]
fn language_error_carries_its_place_where_it_has_one() {
    assert_eq!(
        message(Diagnostic::UnderlyingLanguageError {
            message: bytes("unexpected token"),
            place: Some(place("/proj/y", 3, 5)),
        }),
        "/proj/y:3:5: unexpected token"
    );
    assert_eq!(
        message(Diagnostic::UnderlyingLanguageError { message: bytes("unexpected end"), place: None }),
        "unexpected end"
    );
}
