use wgsl_oil::invocation::{contains_pattern, quoted, sole_contender, with_extension, Contender};
use wgsl_oil::path::{components, is_at_or_below};

fn bytes(text: &str) -> Vec<u8> {
    text.as_bytes().to_vec()
}

#[test]
fn reference_is_put_in_quotes() {
    assert_eq!(quoted(&bytes("shaders/main.wgsl")), bytes("\"shaders/main.wgsl\""));
    assert_eq!(quoted(&bytes("")), bytes("\"\""));
}

#[test]
fn pattern_is_found_anywhere_in_the_text() {
    let text = bytes("#[include_wgsl_oil(\"a.wgsl\")]\nmod shader {}\n");
    assert!(contains_pattern(&text, &bytes("\"a.wgsl\"")));
    assert!(contains_pattern(&text, &bytes("#[")));
    assert!(contains_pattern(&text, &bytes("{}\n")));
    assert!(!contains_pattern(&text, &bytes("\"b.wgsl\"")));
    assert!(!contains_pattern(&text, &bytes("\"a.wgsl\")]]")));
}

#[test]
fn empty_pattern_is_in_every_text() {
    assert!(contains_pattern(&bytes("abc"), &bytes("")));
    assert!(contains_pattern(&bytes(""), &bytes("")));
    assert!(!contains_pattern(&bytes(""), &bytes("a")));
}

#[test]
fn extension_follows_the_last_dot_of_the_file_name() {
    assert!(with_extension(&bytes("/proj/src/main.rs"), &bytes("rs")));
    assert!(with_extension(&bytes("a.tar.gz"), &bytes("gz")));
    assert!(with_extension(&bytes("..a"), &bytes("a")));
    assert!(!with_extension(&bytes("a.tar.gz"), &bytes("tar.gz")));
    assert!(!with_extension(&bytes("/proj/src/main.rs"), &bytes("s")));
    assert!(!with_extension(&bytes("/proj/src/mainrs"), &bytes("rs")));
    assert!(!with_extension(&bytes("/proj/dir.rs/file"), &bytes("rs")));
}

#[test]
fn file_without_extension_has_the_empty_one() {
    assert!(with_extension(&bytes("/c/README"), &bytes("")));
    assert!(!with_extension(&bytes("/c/README"), &bytes("rs")));
    assert!(with_extension(&bytes("main."), &bytes("")));
    assert!(with_extension(&bytes("/proj/dir.rs/file"), &bytes("")));
    assert!(!with_extension(&bytes("/c/main.rs"), &bytes("")));
}

#[test]
fn dot_at_the_start_of_a_name_opens_no_extension() {
    assert!(!with_extension(&bytes("/proj/src/.rs"), &bytes("rs")));
    assert!(!with_extension(&bytes(".rs"), &bytes("rs")));
    assert!(with_extension(&bytes(".rs"), &bytes("")));
    assert!(with_extension(&bytes(".hidden.rs"), &bytes("rs")));
}

#[test]
fn slash_or_dot_at_the_end_of_a_path_does_not_hide_the_name() {
    assert!(with_extension(&bytes("main.rs/"), &bytes("rs")));
    assert!(with_extension(&bytes("a/b.rs/."), &bytes("rs")));
    assert!(with_extension(&bytes("a//b.rs///"), &bytes("rs")));
}

#[test]
fn path_without_a_file_name_has_the_empty_extension() {
    assert!(with_extension(&bytes(""), &bytes("")));
    assert!(with_extension(&bytes("/"), &bytes("")));
    assert!(with_extension(&bytes("."), &bytes("")));
    assert!(with_extension(&bytes(".."), &bytes("")));
    assert!(with_extension(&bytes("a.rs/.."), &bytes("")));
    assert!(!with_extension(&bytes("a.rs/.."), &bytes("rs")));
}

#[test]
fn exactly_one_hit_is_the_contender() {
    assert_eq!(sole_contender(&vec![]), Contender::Nobody);
    assert_eq!(sole_contender(&vec![false, false]), Contender::Nobody);
    assert_eq!(sole_contender(&vec![false, true, false]), Contender::Only(1));
    assert_eq!(sole_contender(&vec![true]), Contender::Only(0));
    assert_eq!(sole_contender(&vec![true, false, true]), Contender::Several);
    assert_eq!(sole_contender(&vec![true, true, true]), Contender::Several);
}

#[test]
fn directory_holds_itself_and_what_lies_below() {
    assert!(is_at_or_below(&bytes("/c/target/debug/x.rs"), &bytes("/c/target")));
    assert!(is_at_or_below(&bytes("/c/target"), &bytes("/c/target")));
    assert!(!is_at_or_below(&bytes("/c/targets/x.rs"), &bytes("/c/target")));
    assert!(!is_at_or_below(&bytes("/c/src/x.rs"), &bytes("/c/target")));
    assert!(!is_at_or_below(&bytes("/c"), &bytes("/c/target")));
}

#[test]
fn paths_are_compared_by_components_not_by_bytes() {
    assert!(is_at_or_below(&bytes("/c/target/a.rs"), &bytes("/c//target")));
    assert!(is_at_or_below(&bytes("/c/target"), &bytes("/c/target/")));
    assert!(is_at_or_below(&bytes("/c/./target/x"), &bytes("/c/target/.")));
    assert!(is_at_or_below(&bytes("//c///target//x"), &bytes("/c/target")));
}

#[test]
fn rooted_and_relative_paths_do_not_hold_each_other() {
    assert!(!is_at_or_below(&bytes("c/target/x"), &bytes("/c/target")));
    assert!(!is_at_or_below(&bytes("/c/target/x"), &bytes("c/target")));
    assert!(is_at_or_below(&bytes("c/target/x"), &bytes("c/target")));
}

#[test]
fn dot_at_the_start_of_a_path_is_a_component() {
    assert!(!is_at_or_below(&bytes("./a/b"), &bytes("a")));
    assert!(!is_at_or_below(&bytes("a/b"), &bytes("./a")));
    assert!(is_at_or_below(&bytes("./a/b"), &bytes("./a")));
    assert!(is_at_or_below(&bytes("./a/b"), &bytes(".")));
}

#[test]
fn empty_directory_holds_every_path() {
    assert!(is_at_or_below(&bytes("/a/b"), &bytes("")));
    assert!(is_at_or_below(&bytes(""), &bytes("")));
    assert!(!is_at_or_below(&bytes(""), &bytes("a")));
}

#[test]
fn dot_dot_is_a_component_like_a_name() {
    assert!(!is_at_or_below(&bytes("/a/../b/x"), &bytes("/b")));
    assert!(is_at_or_below(&bytes("/a/../b/x"), &bytes("/a/..")));
}

#[test]
fn components_leave_out_what_does_not_count() {
    assert_eq!(
        components(&bytes("/c//target/./a.rs/")),
        vec![bytes("/"), bytes("c"), bytes("target"), bytes("a.rs")]
    );
    assert_eq!(components(&bytes("./a/..")), vec![bytes("."), bytes("a"), bytes("..")]);
    assert_eq!(components(&bytes("")), Vec::<Vec<u8>>::new());
    assert_eq!(components(&bytes("/")), vec![bytes("/")]);
}
