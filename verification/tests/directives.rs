use wgsl_oil::directive::{
    find_name, parse_directive, skip_blank, tokenize, Directive, Import, Symbol, Token, TokenKind,
};
use wgsl_oil::parse::{parse, Malformed};

fn bytes(text: &str) -> Vec<u8> {
    text.as_bytes().to_vec()
}

fn directive(line: &str, number: usize) -> Option<Directive> {
    let line = bytes(line);
    let marker = skip_blank(&line);
    assert!(marker < line.len() && line[marker] == b'#');
    parse_directive(&line, marker, number)
}

fn symbol(name: &str, line: usize, column: usize) -> Symbol {
    Symbol { name: bytes(name), line, column }
}

#[test]
fn tokens_carry_kind_and_range() {
    let tokens = tokenize(&bytes("#import \"lib\" {a, *}"), 1).unwrap();
    assert_eq!(
        tokens,
        vec![
            Token { kind: TokenKind::Word, start: 1, end: 7 },
            Token { kind: TokenKind::Text, start: 9, end: 12 },
            Token { kind: TokenKind::Open, start: 14, end: 15 },
            Token { kind: TokenKind::Word, start: 15, end: 16 },
            Token { kind: TokenKind::Comma, start: 16, end: 17 },
            Token { kind: TokenKind::Star, start: 18, end: 19 },
            Token { kind: TokenKind::Close, start: 19, end: 20 },
        ]
    );
}

#[test]
fn unclosed_quote_has_no_tokens() {
    assert_eq!(tokenize(&bytes("#import \"lib {a}"), 1), None);
}

#[test]
fn stray_byte_has_no_tokens() {
    assert_eq!(tokenize(&bytes("#import lib; {a}"), 1), None);
}

#[test]
fn blank_line_has_no_tokens_at_all() {
    assert_eq!(tokenize(&bytes(" \t \r"), 0), Some(vec![]));
}

#[test]
fn import_with_one_name() {
    assert_eq!(
        directive("#import \"lib\" {helper}", 1),
        Some(Directive::Import(Import {
            from: bytes("lib"),
            line: 1,
            column: 10,
            symbols: vec![symbol("helper", 1, 16)],
        }))
    );
}

#[test]
fn import_with_names_and_wildcard() {
    assert_eq!(
        directive("  # import \"../a/b.wgsl\" { x , * ,y_2 }  ", 7),
        Some(Directive::Import(Import {
            from: bytes("../a/b.wgsl"),
            line: 7,
            column: 13,
            symbols: vec![symbol("x", 7, 28), symbol("*", 7, 32), symbol("y_2", 7, 35)],
        }))
    );
}

#[test]
fn export_with_names() {
    assert_eq!(
        directive("#export {foo, bar}", 3),
        Some(Directive::Export(vec![symbol("foo", 3, 10), symbol("bar", 3, 15)]))
    );
}

#[test]
fn symbol_written_twice_counts_once() {
    assert_eq!(
        directive("#import \"lib\" {a, b, a, *, *}", 1),
        Some(Directive::Import(Import {
            from: bytes("lib"),
            line: 1,
            column: 10,
            symbols: vec![symbol("a", 1, 16), symbol("b", 1, 19), symbol("*", 1, 25)],
        }))
    );
    assert_eq!(
        directive("#export {x, x}", 2),
        Some(Directive::Export(vec![symbol("x", 2, 10)]))
    );
}

#[test]
fn export_of_the_wildcard_is_malformed() {
    assert_eq!(directive("#export {*}", 1), None);
}

#[test]
fn unknown_keyword_is_malformed() {
    assert_eq!(directive("#include \"lib\" {a}", 1), None);
    assert_eq!(directive("#define X", 1), None);
    assert_eq!(directive("#", 1), None);
}

#[test]
fn import_without_path_is_malformed() {
    assert_eq!(directive("#import {a}", 1), None);
    assert_eq!(directive("#import \"\" {a}", 1), None);
}

#[test]
fn broken_lists_are_malformed() {
    assert_eq!(directive("#export {}", 1), None);
    assert_eq!(directive("#export {a,}", 1), None);
    assert_eq!(directive("#export {,a}", 1), None);
    assert_eq!(directive("#export {a b}", 1), None);
    assert_eq!(directive("#export {a", 1), None);
    assert_eq!(directive("#export a}", 1), None);
    assert_eq!(directive("#export {a} b", 1), None);
    assert_eq!(directive("#import \"lib\" {a,,b}", 1), None);
}

#[test]
fn name_may_not_start_with_a_digit() {
    assert_eq!(directive("#export {1abc}", 1), None);
    assert_eq!(
        directive("#export {_1abc}", 1),
        Some(Directive::Export(vec![symbol("_1abc", 1, 10)]))
    );
}

#[test]
fn module_without_directives_is_its_own_body() {
    let source = bytes("fn main() {\n    return;\n}\n");
    let module = parse(&source).unwrap();
    assert_eq!(module.body, source);
    assert!(module.imports.is_empty());
    assert!(module.exports.is_empty());
    assert_eq!(module.kept, vec![1, 2, 3, 4]);
}

#[test]
fn empty_module_has_an_empty_body() {
    let module = parse(&bytes("")).unwrap();
    assert_eq!(module.body, bytes(""));
    assert_eq!(module.kept, vec![1]);
}

#[test]
fn directive_lines_are_taken_out_of_the_body() {
    let source = bytes("#import \"lib\" {helper}\nfn main() { helper(); }\n#export {main}\n");
    let module = parse(&source).unwrap();
    assert_eq!(module.body, bytes("fn main() { helper(); }\n"));
    assert_eq!(module.kept, vec![2, 4]);
    assert_eq!(
        module.imports,
        vec![Import {
            from: bytes("lib"),
            line: 1,
            column: 10,
            symbols: vec![symbol("helper", 1, 16)],
        }]
    );
    assert_eq!(module.exports, vec![symbol("main", 3, 10)]);
}

#[test]
fn module_of_directives_only_has_an_empty_body() {
    let module = parse(&bytes("#export {a}\n#export {b}")).unwrap();
    assert_eq!(module.body, bytes(""));
    assert!(module.kept.is_empty());
    assert_eq!(module.exports, vec![symbol("a", 1, 10), symbol("b", 2, 10)]);
}

#[test]
fn a_name_exported_twice_is_kept_once() {
    let module = parse(&bytes("#export {a, b, a}\n#export {b, c}\n")).unwrap();
    assert_eq!(
        module.exports,
        vec![symbol("a", 1, 10), symbol("b", 1, 13), symbol("c", 2, 13)]
    );
    assert_eq!(find_name(&module.exports, &bytes("b")), Some(1));
    assert_eq!(find_name(&module.exports, &bytes("d")), None);
}

#[test]
fn imports_keep_the_order_of_their_lines() {
    let module = parse(&bytes("#import \"b\" {x}\ncode\n#import \"a\" {*}\n")).unwrap();
    assert_eq!(module.imports.len(), 2);
    assert_eq!(module.imports[0].from, bytes("b"));
    assert_eq!(module.imports[1].from, bytes("a"));
    assert_eq!(module.imports[1].line, 3);
    assert_eq!(module.imports[1].column, 10);
}

#[test]
fn first_malformed_line_is_reported() {
    let source = bytes("fn a() {}\n  #import lib\n#export\n");
    assert_eq!(parse(&source), Err(Malformed { line: 2, column: 3 }));
}

#[test]
fn marker_inside_a_line_is_body() {
    let source = bytes("let x = 1; # not a directive\n");
    let module = parse(&source).unwrap();
    assert_eq!(module.body, source);
}

#[test]
fn carriage_returns_stay_in_the_body() {
    let source = bytes("#export {a}\r\nfn a() {}\r\n");
    let module = parse(&source).unwrap();
    assert_eq!(module.body, bytes("fn a() {}\r\n"));
    assert_eq!(module.exports, vec![symbol("a", 1, 10)]);
}
