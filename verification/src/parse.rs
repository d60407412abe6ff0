//! The directive parser of one module: its text is split into the imports
//! and exports that its directive lines declare and the body that is left
//! when those lines are taken out.

use crate::directive::{
    absorb_symbols, blank_end, directive_of, import_views_of, is_directive_line, is_malformed,
    lemma_absorb_concat, parse_directive, skip_blank, symbol_views, unique_names, Directive,
    DirectiveView, Import, ImportView, Symbol, SymbolView, HASH,
};
use crate::text::{append_bytes, gather, join, lemma_join_split, split, split_bytes, views, NEWLINE};
use vstd::prelude::*;

verus! {

/// The imports that line `i` declares: one or none.
pub open spec fn imports_at(lines: Seq<Seq<u8>>, i: int) -> Seq<ImportView> {
    if is_directive_line(lines[i]) {
        match directive_of(lines[i], (i + 1) as nat) {
            Some(DirectiveView::Import(import)) => seq![import],
            _ => Seq::empty(),
        }
    } else {
        Seq::empty()
    }
}

/// The names that line `i` exports.
pub open spec fn exports_at(lines: Seq<Seq<u8>>, i: int) -> Seq<SymbolView> {
    if is_directive_line(lines[i]) {
        match directive_of(lines[i], (i + 1) as nat) {
            Some(DirectiveView::Export(symbols)) => symbols,
            _ => Seq::empty(),
        }
    } else {
        Seq::empty()
    }
}

/// The number of line `i` where it belongs to the body.
pub open spec fn kept_at(lines: Seq<Seq<u8>>, i: int) -> Seq<nat> {
    if is_directive_line(lines[i]) {
        Seq::empty()
    } else {
        seq![(i + 1) as nat]
    }
}

/// The imports of the first `n` lines, in the order of their lines.
pub open spec fn imports_in(lines: Seq<Seq<u8>>, n: nat) -> Seq<ImportView> {
    gather(n, |i: int| imports_at(lines, i))
}

/// Every name that the first `n` lines export, in the order written.
pub open spec fn exported_in(lines: Seq<Seq<u8>>, n: nat) -> Seq<SymbolView> {
    gather(n, |i: int| exports_at(lines, i))
}

/// The numbers of the body lines among the first `n` lines.
pub open spec fn kept_in(lines: Seq<Seq<u8>>, n: nat) -> Seq<nat> {
    gather(n, |i: int| kept_at(lines, i))
}

/// The text of the body: the lines that `kept` numbers, with a newline
/// between neighbours.
pub open spec fn body_of(lines: Seq<Seq<u8>>, kept: Seq<nat>) -> Seq<u8> {
    join(Seq::new(kept.len(), |k: int| lines[kept[k] - 1]), NEWLINE)
}

/// A parsed module as the contracts see it.
pub struct ParsedView {
    pub imports: Seq<ImportView>,
    pub exports: Seq<SymbolView>,
    pub body: Seq<u8>,
    pub kept: Seq<nat>,
}

/// Whether no line of `source` is a malformed directive.
pub open spec fn is_well_formed(source: Seq<u8>) -> bool {
    forall|i: int|
        0 <= i < split(source, NEWLINE).len() ==> !is_malformed(#[trigger] split(source, NEWLINE)[i])
}

/// Whether line `line` of `source` is its first malformed directive and
/// `column` is where that line's marker stands, both counted from 1.
pub open spec fn is_first_malformed(source: Seq<u8>, line: int, column: int) -> bool {
    let lines = split(source, NEWLINE);
    &&& 1 <= line <= lines.len()
    &&& is_malformed(lines[line - 1])
    &&& forall|i: int| 0 <= i < line - 1 ==> !is_malformed(#[trigger] lines[i])
    &&& column == blank_end(lines[line - 1], 0) + 1
}

/// What a well-formed `source` declares and what is left of it.
pub open spec fn parsed(source: Seq<u8>) -> ParsedView {
    let lines = split(source, NEWLINE);
    let kept = kept_in(lines, lines.len());
    ParsedView {
        imports: imports_in(lines, lines.len()),
        exports: unique_names(exported_in(lines, lines.len())),
        body: body_of(lines, kept),
        kept,
    }
}

/// A module after parsing: what it imports, the names it exports (each
/// once), its body, and for each line of the body its number in the file.
#[derive(Debug, PartialEq, Eq)]
pub struct ParsedModule {
    pub imports: Vec<Import>,
    pub exports: Vec<Symbol>,
    pub body: Vec<u8>,
    pub kept: Vec<usize>,
}

/// Line numbers as the contracts see them.
pub open spec fn numbers(kept: Seq<usize>) -> Seq<nat> {
    Seq::new(kept.len(), |k: int| kept[k] as nat)
}

impl View for ParsedModule {
    type V = ParsedView;

    open spec fn view(&self) -> ParsedView {
        ParsedView {
            imports: import_views_of(self.imports@),
            exports: symbol_views(self.exports@),
            body: self.body@,
            kept: numbers(self.kept@),
        }
    }
}

/// A directive line that does not follow the grammar: its line, and the
/// column of its marker, both counted from 1.
#[derive(Clone, Copy, Debug, PartialEq, Eq)]
pub struct Malformed {
    pub line: usize,
    pub column: usize,
}

/// What one more line adds to what the lines before it gave.
proof fn lemma_next_line(lines: Seq<Seq<u8>>, i: nat)
    ensures
        imports_in(lines, i + 1) == imports_in(lines, i) + imports_at(lines, i as int),
        exported_in(lines, i + 1) == exported_in(lines, i) + exports_at(lines, i as int),
        kept_in(lines, i + 1) == kept_in(lines, i) + kept_at(lines, i as int),
{
}

/// The body grows by one line.
proof fn lemma_body_grows(lines: Seq<Seq<u8>>, kept: Seq<nat>, number: nat)
    requires
        1 <= number <= lines.len(),
    ensures
        body_of(lines, kept.push(number)) == if kept.len() == 0 {
            lines[number - 1]
        } else {
            body_of(lines, kept) + seq![NEWLINE] + lines[number - 1]
        },
{
    let more = kept.push(number);
    let rows = Seq::new(more.len(), |k: int| lines[more[k] - 1]);
    let before = Seq::new(kept.len(), |k: int| lines[kept[k] - 1]);
    assert(rows.drop_last() =~= before);
    assert(rows.last() == lines[number - 1]);
}

/// Parses the text of one module. A directive line that breaks the grammar
/// stops the parse; the first such line is the one reported.
pub fn parse(source: &Vec<u8>) -> (r: Result<ParsedModule, Malformed>)
    ensures
        match r {
            Ok(module) => is_well_formed(source@) && module@ == parsed(source@),
            Err(e) => is_first_malformed(source@, e.line as int, e.column as int),
        },
{
    let rows = split_bytes(source, NEWLINE);
    let ghost lines = views(rows@);
    let mut imports: Vec<Import> = Vec::new();
    let mut exports: Vec<Symbol> = Vec::new();
    let mut body: Vec<u8> = Vec::new();
    let mut kept: Vec<usize> = Vec::new();
    let mut i: usize = 0;
    assert(import_views_of(imports@) =~= imports_in(lines, 0));
    assert(symbol_views(exports@) =~= unique_names(exported_in(lines, 0)));
    assert(numbers(kept@) =~= kept_in(lines, 0));
    while i < rows.len()
        invariant
            i <= rows.len(),
            lines == views(rows@),
            lines == split(source@, NEWLINE),
            import_views_of(imports@) == imports_in(lines, i as nat),
            symbol_views(exports@) == unique_names(exported_in(lines, i as nat)),
            numbers(kept@) == kept_in(lines, i as nat),
            body@ == body_of(lines, kept_in(lines, i as nat)),
            forall|j: int| 0 <= j < i ==> !is_malformed(#[trigger] lines[j]),
        decreases rows.len() - i,
    {
        let row = &rows[i];
        assert(lines[i as int] == row@);
        let marker = skip_blank(row);
        proof {
            lemma_next_line(lines, i as nat);
        }
        if marker < row.len() && row[marker] == HASH {
            match parse_directive(row, marker, i + 1) {
                None => {
                    return Err(Malformed { line: i + 1, column: marker + 1 });
                },
                Some(Directive::Import(import)) => {
                    let ghost before = import_views_of(imports@);
                    let ghost added = import@;
                    imports.push(import);
                    proof {
                        assert(import_views_of(imports@) =~= before + seq![added]);
                        assert(exported_in(lines, (i + 1) as nat) =~= exported_in(lines, i as nat));
                        assert(kept_in(lines, (i + 1) as nat) =~= kept_in(lines, i as nat));
                    }
                },
                Some(Directive::Export(symbols)) => {
                    absorb_symbols(&mut exports, &symbols);
                    proof {
                        lemma_absorb_concat(
                            Seq::empty(),
                            exported_in(lines, i as nat),
                            symbol_views(symbols@),
                        );
                        assert(imports_in(lines, (i + 1) as nat) =~= imports_in(lines, i as nat));
                        assert(kept_in(lines, (i + 1) as nat) =~= kept_in(lines, i as nat));
                    }
                },
            }
        } else {
            proof {
                lemma_body_grows(lines, kept_in(lines, i as nat), (i + 1) as nat);
                assert(imports_in(lines, (i + 1) as nat) =~= imports_in(lines, i as nat));
                assert(exported_in(lines, (i + 1) as nat) =~= exported_in(lines, i as nat));
                assert(kept_in(lines, (i + 1) as nat) =~= kept_in(lines, i as nat).push(
                    (i + 1) as nat,
                ));
            }
            if kept.len() > 0 {
                body.push(NEWLINE);
            }
            append_bytes(&mut body, row);
            let ghost before = numbers(kept@);
            kept.push(i + 1);
            assert(numbers(kept@) =~= before.push((i + 1) as nat));
            assert(body@ =~= body_of(lines, kept_in(lines, (i + 1) as nat)));
        }
        i += 1;
    }
    Ok(ParsedModule { imports, exports, body, kept })
}

/// A text without directive lines is its own body: it declares nothing and
/// nothing is taken out of it.
pub proof fn lemma_plain_text_is_body(source: Seq<u8>)
    requires
        forall|i: int|
            0 <= i < split(source, NEWLINE).len() ==> !is_directive_line(
                #[trigger] split(source, NEWLINE)[i],
            ),
    ensures
        is_well_formed(source),
        parsed(source).body == source,
        parsed(source).imports.len() == 0,
        parsed(source).exports.len() == 0,
{
    let lines = split(source, NEWLINE);
    lemma_plain_lines(lines, lines.len());
    let kept = kept_in(lines, lines.len());
    assert(Seq::new(kept.len(), |k: int| lines[kept[k] - 1]) =~= lines);
    lemma_join_split(source, NEWLINE);
}

/// Where none of the first `n` lines is a directive line, all of them are
/// kept and nothing is declared.
proof fn lemma_plain_lines(lines: Seq<Seq<u8>>, n: nat)
    requires
        n <= lines.len(),
        forall|i: int| 0 <= i < lines.len() ==> !is_directive_line(#[trigger] lines[i]),
    ensures
        kept_in(lines, n) == Seq::new(n, |k: int| (k + 1) as nat),
        imports_in(lines, n).len() == 0,
        exported_in(lines, n).len() == 0,
    decreases n,
{
    if n > 0 {
        lemma_plain_lines(lines, (n - 1) as nat);
        lemma_next_line(lines, (n - 1) as nat);
        assert(!is_directive_line(lines[n - 1]));
        assert(kept_in(lines, n) =~= Seq::new(n, |k: int| (k + 1) as nat));
    } else {
        assert(kept_in(lines, n) =~= Seq::new(n, |k: int| (k + 1) as nat));
    }
}

} // verus!
