use wgsl_oil::path::{resolve, ModuleId, ProjectRoot};

fn module(path: &str) -> ModuleId {
    ModuleId::new(path.as_bytes().to_vec())
}

fn root(path: &str) -> ProjectRoot {
    ProjectRoot::new(path.as_bytes().to_vec())
}

fn resolved(base: &str, reference: &str, dir: &str) -> Option<String> {
    resolve(&module(base), &reference.as_bytes().to_vec(), &root(dir))
        .map(|id| String::from_utf8(id.as_bytes().clone()).unwrap())
}

#[test]
fn relative_reference_starts_at_the_directory_of_the_base() {
    assert_eq!(
        resolved("/proj/shaders/main.wgsl", "lib.wgsl", "/proj"),
        Some("/proj/shaders/lib.wgsl".to_string())
    );
}

#[test]
fn dot_dot_goes_up_one_directory() {
    assert_eq!(
        resolved("/proj/shaders/main.wgsl", "../common/util.wgsl", "/proj"),
        Some("/proj/common/util.wgsl".to_string())
    );
}

#[test]
fn dots_and_empty_components_are_skipped() {
    assert_eq!(
        resolved("/proj/shaders/main.wgsl", "./a//b/./c", "/proj"),
        Some("/proj/shaders/a/b/c".to_string())
    );
}

#[test]
fn rooted_reference_starts_at_the_project_root() {
    assert_eq!(
        resolved("/proj/deep/down/main.wgsl", "/lib/x.wgsl", "/proj"),
        Some("/proj/lib/x.wgsl".to_string())
    );
}

#[test]
fn reference_that_leaves_the_root_is_refused() {
    assert_eq!(resolved("/proj/a/main.wgsl", "../../etc/passwd", "/proj"), None);
}

#[test]
fn reference_that_climbs_above_the_top_is_refused() {
    assert_eq!(resolved("/proj/main.wgsl", "../../../x", "/proj"), None);
}

#[test]
fn reference_may_leave_the_root_and_come_back() {
    assert_eq!(
        resolved("/proj/main.wgsl", "../proj/lib.wgsl", "/proj"),
        Some("/proj/lib.wgsl".to_string())
    );
}

#[test]
fn the_root_itself_is_no_module() {
    assert_eq!(resolved("/proj/main.wgsl", "", "/proj"), None);
    assert_eq!(resolved("/proj/main.wgsl", ".", "/proj"), None);
}

#[test]
fn sibling_directory_with_the_root_as_prefix_is_outside() {
    assert_eq!(resolved("/proj/main.wgsl", "../project/x", "/proj"), None);
}

#[test]
fn base_outside_the_root_is_refused() {
    assert_eq!(resolved("/elsewhere/main.wgsl", "lib.wgsl", "/proj"), None);
}

#[test]
fn trailing_slashes_of_the_root_are_dropped() {
    assert_eq!(root("/proj///").as_bytes(), &b"/proj".to_vec());
    assert_eq!(root("/").as_bytes(), &b"".to_vec());
    assert_eq!(
        resolved("/proj/main.wgsl", "lib.wgsl", "/proj/"),
        Some("/proj/lib.wgsl".to_string())
    );
}

#[test]
fn file_system_root_holds_everything() {
    assert_eq!(resolved("/a/b", "../c", "/"), Some("/c".to_string()));
}

#[test]
fn module_ids_compare_by_path() {
    assert!(module("/proj/a").same(&module("/proj/a")));
    assert!(!module("/proj/a").same(&module("/proj/b")));
    assert_eq!(module("/proj/a").duplicate(), module("/proj/a"));
    assert_eq!(root("/proj").duplicate(), root("/proj"));
}

#[test]
fn reference_of_slashes_only_names_no_module() {
    assert_eq!(resolved("/proj/main.wgsl", "/", "/proj"), None);
    assert_eq!(resolved("/proj/main.wgsl", "//", "/proj"), None);
}
