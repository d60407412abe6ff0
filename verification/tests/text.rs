use wgsl_oil::text::{append_bytes, blank, copy_bytes, copy_range, same_bytes, split_bytes};

fn bytes(text: &str) -> Vec<u8> {
    text.as_bytes().to_vec()
}

#[test]
fn split_cuts_at_every_separator() {
    assert_eq!(split_bytes(&bytes("a/b/c"), b'/'), vec![bytes("a"), bytes("b"), bytes("c")]);
}

#[test]
fn split_of_empty_text_is_one_empty_piece() {
    assert_eq!(split_bytes(&bytes(""), b'\n'), vec![bytes("")]);
}

#[test]
fn split_keeps_empty_pieces() {
    assert_eq!(
        split_bytes(&bytes("/a//b/"), b'/'),
        vec![bytes(""), bytes("a"), bytes(""), bytes("b"), bytes("")]
    );
}

#[test]
fn split_then_join_gives_the_text_back() {
    let text = bytes("one\ntwo\n\nthree\n");
    let pieces = split_bytes(&text, b'\n');
    assert_eq!(pieces.len(), 5);
    assert_eq!(pieces.join(&b'\n'), text);
}

#[test]
fn same_bytes_compares_contents() {
    assert!(same_bytes(&bytes("abc"), &bytes("abc")));
    assert!(!same_bytes(&bytes("abc"), &bytes("abd")));
    assert!(!same_bytes(&bytes("abc"), &bytes("ab")));
    assert!(same_bytes(&bytes(""), &bytes("")));
}

#[test]
fn copies_are_equal_to_what_they_copy() {
    assert_eq!(copy_bytes(&bytes("shader")), bytes("shader"));
    assert_eq!(copy_range(&bytes("shader"), 1, 4), bytes("had"));
    assert_eq!(copy_range(&bytes("shader"), 2, 2), bytes(""));
}

#[test]
fn append_adds_at_the_end() {
    let mut head = bytes("ab");
    append_bytes(&mut head, &bytes("cd"));
    assert_eq!(head, bytes("abcd"));
}

#[test]
fn blank_bytes_are_space_tab_and_carriage_return() {
    assert!(blank(b' '));
    assert!(blank(b'\t'));
    assert!(blank(b'\r'));
    assert!(!blank(b'\n'));
    assert!(!blank(b'#'));
}
