//! The directive grammar of one line.
//!
//! A line whose first byte that is not blank is `#` is a directive line. What
//! follows the marker is cut into tokens and must read
//!
//! ```text
//! #import "path" { symbol, symbol, ... }
//! #export { name, name, ... }
//! ```
//!
//! where a symbol is a name or `*`, and a name is made of letters, digits and
//! `_` and does not start with a digit. Every other line belongs to the body
//! and is never looked into.

use crate::text::{copy_bytes, copy_range, is_blank, same_bytes};
use vstd::prelude::*;

verus! {

/// The marker that opens a directive line.
pub const HASH: u8 = 35;

/// The byte that opens and closes a path.
pub const QUOTE: u8 = 34;

/// The byte that opens a symbol list.
pub const OPEN: u8 = 123;

/// The byte that closes a symbol list.
pub const CLOSE: u8 = 125;

/// The byte between two symbols.
pub const COMMA: u8 = 44;

/// The wildcard.
pub const STAR: u8 = 42;

/// The keyword `import`.
pub open spec fn import_word() -> Seq<u8> {
    seq![105u8, 109u8, 112u8, 111u8, 114u8, 116u8]
}

/// The keyword `export`.
pub open spec fn export_word() -> Seq<u8> {
    seq![101u8, 120u8, 112u8, 111u8, 114u8, 116u8]
}

/// Whether `b` is a decimal digit.
pub open spec fn is_digit(b: u8) -> bool {
    48 <= b <= 57
}

/// Whether `b` may stand in a word: a letter, a digit or `_`.
pub open spec fn is_word_byte(b: u8) -> bool {
    is_digit(b) || 65 <= b <= 90 || 97 <= b <= 122 || b == 95
}

/// Whether `b` is a token by itself.
pub open spec fn is_punct(b: u8) -> bool {
    b == OPEN || b == CLOSE || b == COMMA || b == STAR
}

/// What a token is.
#[derive(Clone, Copy, Debug, PartialEq, Eq, Structural)]
pub enum TokenKind {
    /// A run of word bytes.
    Word,
    /// The inside of a pair of quotes.
    Text,
    /// `{`
    Open,
    /// `}`
    Close,
    /// `,`
    Comma,
    /// `*`
    Star,
}

/// One token of a directive line: its kind and the bytes of the line that it
/// covers, from `start` up to `end`.
#[derive(Clone, Copy, Debug, PartialEq, Eq)]
pub struct Token {
    pub kind: TokenKind,
    pub start: usize,
    pub end: usize,
}

/// The kind of the token that the byte `b` is by itself.
pub open spec fn punct_kind(b: u8) -> TokenKind {
    if b == OPEN {
        TokenKind::Open
    } else if b == CLOSE {
        TokenKind::Close
    } else if b == COMMA {
        TokenKind::Comma
    } else {
        TokenKind::Star
    }
}

/// The first index from `pos` on that holds no blank byte.
pub open spec fn blank_end(line: Seq<u8>, pos: int) -> int
    decreases line.len() - pos,
{
    if 0 <= pos < line.len() && is_blank(line[pos]) {
        blank_end(line, pos + 1)
    } else {
        pos
    }
}

/// The first index from `pos` on that holds no word byte.
pub open spec fn word_end(line: Seq<u8>, pos: int) -> int
    decreases line.len() - pos,
{
    if 0 <= pos < line.len() && is_word_byte(line[pos]) {
        word_end(line, pos + 1)
    } else {
        pos
    }
}

/// The first index from `pos` on that holds a quote, or the line's length.
pub open spec fn text_end(line: Seq<u8>, pos: int) -> int
    decreases line.len() - pos,
{
    if 0 <= pos < line.len() && line[pos] != QUOTE {
        text_end(line, pos + 1)
    } else {
        pos
    }
}

/// A run of word bytes ends at or after its start.
pub proof fn lemma_word_end_bounds(line: Seq<u8>, pos: int)
    requires
        0 <= pos <= line.len(),
    ensures
        pos <= word_end(line, pos) <= line.len(),
    decreases line.len() - pos,
{
    if pos < line.len() && is_word_byte(line[pos]) {
        lemma_word_end_bounds(line, pos + 1);
    }
}

/// A quoted text ends at or after its start.
pub proof fn lemma_text_end_bounds(line: Seq<u8>, pos: int)
    requires
        0 <= pos <= line.len(),
    ensures
        pos <= text_end(line, pos) <= line.len(),
    decreases line.len() - pos,
{
    if pos < line.len() && line[pos] != QUOTE {
        lemma_text_end_bounds(line, pos + 1);
    }
}

/// `first` put in front of the tokens that follow, where there are any.
pub open spec fn with_first(first: Token, rest: Option<Seq<Token>>) -> Option<Seq<Token>> {
    match rest {
        Some(tokens) => Some(seq![first] + tokens),
        None => None,
    }
}

/// The tokens of `line` from `pos` on. There are none where a byte belongs
/// to no token or a quote is not closed.
pub open spec fn lex(line: Seq<u8>, pos: int) -> Option<Seq<Token>>
    decreases line.len() - pos,
{
    if pos < 0 || pos >= line.len() {
        Some(Seq::empty())
    } else if is_blank(line[pos]) {
        lex(line, pos + 1)
    } else if is_punct(line[pos]) {
        with_first(
            Token { kind: punct_kind(line[pos]), start: pos as usize, end: (pos + 1) as usize },
            lex(line, pos + 1),
        )
    } else if line[pos] == QUOTE {
        let end = text_end(line, pos + 1);
        if end >= line.len() {
            None
        } else {
            proof {
                lemma_text_end_bounds(line, pos + 1);
            }
            with_first(
                Token { kind: TokenKind::Text, start: (pos + 1) as usize, end: end as usize },
                lex(line, end + 1),
            )
        }
    } else if is_word_byte(line[pos]) {
        let end = word_end(line, pos + 1);
        proof {
            lemma_word_end_bounds(line, pos + 1);
        }
        with_first(
            Token { kind: TokenKind::Word, start: pos as usize, end: end as usize },
            lex(line, end),
        )
    } else {
        None
    }
}

/// The bytes of `line` that `token` covers.
pub open spec fn content(line: Seq<u8>, token: Token) -> Seq<u8> {
    line.subrange(token.start as int, token.end as int)
}

/// Whether the line is a directive line: its first byte that is not blank is
/// the marker.
pub open spec fn is_directive_line(line: Seq<u8>) -> bool {
    let at = blank_end(line, 0);
    at < line.len() && line[at] == HASH
}

/// Whether `token` is a name: a word that does not start with a digit.
pub open spec fn is_name(line: Seq<u8>, token: Token) -> bool {
    token.kind == TokenKind::Word && 0 <= token.start < line.len() && !is_digit(
        line[token.start as int],
    )
}

/// Whether `token` may stand in a symbol list.
pub open spec fn is_symbol(line: Seq<u8>, token: Token, star_ok: bool) -> bool {
    is_name(line, token) || (star_ok && token.kind == TokenKind::Star)
}

/// Whether the tokens from `from` up to `to` are a symbol list: one symbol or
/// more, with a comma between neighbours.
pub open spec fn is_list(line: Seq<u8>, tokens: Seq<Token>, from: int, to: int, star_ok: bool) -> bool {
    &&& 0 <= from < to <= tokens.len()
    &&& (to - from) % 2 == 1
    &&& forall|k: int|
        from <= k < to ==> if (k - from) % 2 == 0 {
            is_symbol(line, #[trigger] tokens[k], star_ok)
        } else {
            tokens[k].kind == TokenKind::Comma
        }
}

/// Whether the tokens read `import "path" { list }`.
pub open spec fn is_import(line: Seq<u8>, tokens: Seq<Token>) -> bool {
    &&& tokens.len() >= 5
    &&& tokens[0].kind == TokenKind::Word
    &&& content(line, tokens[0]) == import_word()
    &&& tokens[1].kind == TokenKind::Text
    &&& tokens[1].start < tokens[1].end
    &&& tokens[2].kind == TokenKind::Open
    &&& tokens[tokens.len() - 1].kind == TokenKind::Close
    &&& is_list(line, tokens, 3, tokens.len() - 1, true)
}

/// Whether the tokens read `export { list }`.
pub open spec fn is_export(line: Seq<u8>, tokens: Seq<Token>) -> bool {
    &&& tokens.len() >= 4
    &&& tokens[0].kind == TokenKind::Word
    &&& content(line, tokens[0]) == export_word()
    &&& tokens[1].kind == TokenKind::Open
    &&& tokens[tokens.len() - 1].kind == TokenKind::Close
    &&& is_list(line, tokens, 2, tokens.len() - 1, false)
}

/// A symbol of a directive as the contracts see it: its bytes and where it
/// stands, line and column counted from 1.
pub struct SymbolView {
    pub name: Seq<u8>,
    pub line: nat,
    pub column: nat,
}

/// An import directive as the contracts see it.
pub struct ImportView {
    pub from: Seq<u8>,
    pub line: nat,
    pub column: nat,
    pub symbols: Seq<SymbolView>,
}

/// A directive as the contracts see it.
pub enum DirectiveView {
    Import(ImportView),
    Export(Seq<SymbolView>),
}

/// The symbols of the list that the tokens from `from` up to `to` hold.
pub open spec fn symbols_of(line: Seq<u8>, tokens: Seq<Token>, from: int, to: int, number: nat) -> Seq<
    SymbolView,
> {
    Seq::new(
        ((to - from + 1) / 2) as nat,
        |j: int|
            SymbolView {
                name: content(line, tokens[from + 2 * j]),
                line: number,
                column: (tokens[from + 2 * j].start + 1) as nat,
            },
    )
}

/// The directive that the tokens spell on line `number`, if they spell one.
/// A symbol that is written twice counts once.
pub open spec fn directive_of_tokens(line: Seq<u8>, tokens: Seq<Token>, number: nat) -> Option<
    DirectiveView,
> {
    if is_import(line, tokens) {
        Some(
            DirectiveView::Import(
                ImportView {
                    from: content(line, tokens[1]),
                    line: number,
                    column: (tokens[1].start + 1) as nat,
                    symbols: unique_names(symbols_of(line, tokens, 3, tokens.len() - 1, number)),
                },
            ),
        )
    } else if is_export(line, tokens) {
        Some(
            DirectiveView::Export(
                unique_names(symbols_of(line, tokens, 2, tokens.len() - 1, number)),
            ),
        )
    } else {
        None
    }
}

/// The directive on the directive line `line`, which is line `number` of its
/// file, or `None` where the line does not follow the grammar.
pub open spec fn directive_of(line: Seq<u8>, number: nat) -> Option<DirectiveView> {
    match lex(line, blank_end(line, 0) + 1) {
        Some(tokens) => directive_of_tokens(line, tokens, number),
        None => None,
    }
}

/// Whether the line opens with the marker and then breaks the grammar.
pub open spec fn is_malformed(line: Seq<u8>) -> bool {
    is_directive_line(line) && directive_of(line, 0) is None
}

/// A symbol of a directive: a name, or `*` for the wildcard, and its place.
#[derive(Debug, PartialEq, Eq)]
pub struct Symbol {
    pub name: Vec<u8>,
    pub line: usize,
    pub column: usize,
}

impl View for Symbol {
    type V = SymbolView;

    open spec fn view(&self) -> SymbolView {
        SymbolView { name: self.name@, line: self.line as nat, column: self.column as nat }
    }
}

/// The symbols of a list as the contracts see them.
pub open spec fn symbol_views(symbols: Seq<Symbol>) -> Seq<SymbolView> {
    Seq::new(symbols.len(), |i: int| symbols[i]@)
}

/// Whether `symbols` holds the name `name`.
pub open spec fn has_name(symbols: Seq<SymbolView>, name: Seq<u8>) -> bool {
    exists|j: int| 0 <= j < symbols.len() && (#[trigger] symbols[j]).name == name
}

/// `known` with the symbols of `more` added in turn, each unless its name is
/// there already.
pub open spec fn absorb(known: Seq<SymbolView>, more: Seq<SymbolView>) -> Seq<SymbolView>
    decreases more.len(),
{
    if more.len() == 0 {
        known
    } else {
        let so_far = absorb(known, more.drop_last());
        if has_name(so_far, more.last().name) {
            so_far
        } else {
            so_far.push(more.last())
        }
    }
}

/// The first occurrence of every name in `symbols`, in order: the list as a
/// set of names.
pub open spec fn unique_names(symbols: Seq<SymbolView>) -> Seq<SymbolView> {
    absorb(Seq::empty(), symbols)
}

/// Absorbing two lists in turn is absorbing them joined.
pub proof fn lemma_absorb_concat(known: Seq<SymbolView>, a: Seq<SymbolView>, b: Seq<SymbolView>)
    ensures
        absorb(absorb(known, a), b) == absorb(known, a + b),
    decreases b.len(),
{
    if b.len() == 0 {
        assert(a + b =~= a);
    } else {
        lemma_absorb_concat(known, a, b.drop_last());
        assert((a + b).drop_last() =~= a + b.drop_last());
        assert((a + b).last() == b.last());
    }
}

/// No name stands twice in an absorbed list when none stood twice before.
pub proof fn lemma_absorb_distinct(known: Seq<SymbolView>, more: Seq<SymbolView>)
    requires
        forall|i: int, j: int|
            0 <= i < j < known.len() ==> (#[trigger] known[i]).name != (#[trigger] known[j]).name,
    ensures
        forall|i: int, j: int|
            0 <= i < j < absorb(known, more).len() ==> (#[trigger] absorb(known, more)[i]).name != (
            #[trigger] absorb(known, more)[j]).name,
    decreases more.len(),
{
    if more.len() > 0 {
        lemma_absorb_distinct(known, more.drop_last());
        let so_far = absorb(known, more.drop_last());
        let all = absorb(known, more);
        if !has_name(so_far, more.last().name) {
            assert forall|i: int, j: int| 0 <= i < j < all.len() implies (#[trigger] all[i]).name != (
            #[trigger] all[j]).name by {
                if j == so_far.len() {
                    assert(so_far[i].name != more.last().name);
                } else {
                    assert(so_far[i].name != so_far[j].name);
                }
            }
        }
    }
}

/// A name is in an absorbed list exactly when it was known or came with
/// `more`.
pub proof fn lemma_absorb_names(known: Seq<SymbolView>, more: Seq<SymbolView>, name: Seq<u8>)
    ensures
        has_name(absorb(known, more), name) <==> has_name(known, name) || has_name(more, name),
    decreases more.len(),
{
    if more.len() > 0 {
        let head = more.drop_last();
        let so_far = absorb(known, head);
        lemma_absorb_names(known, head, name);
        let all = absorb(known, more);
        if has_name(more, name) {
            let j = choose|j: int| 0 <= j < more.len() && (#[trigger] more[j]).name == name;
            if j < more.len() - 1 {
                assert(head[j].name == name);
            } else {
                if !has_name(so_far, name) {
                    assert(all[so_far.len() as int].name == name);
                }
            }
        }
        if has_name(head, name) {
            let j = choose|j: int| 0 <= j < head.len() && (#[trigger] head[j]).name == name;
            assert(more[j].name == name);
        }
        if has_name(so_far, name) {
            let j = choose|j: int| 0 <= j < so_far.len() && (#[trigger] so_far[j]).name == name;
            assert(all[j].name == name);
        }
        if has_name(all, name) && !has_name(so_far, name) {
            let j = choose|j: int| 0 <= j < all.len() && (#[trigger] all[j]).name == name;
            if j < so_far.len() {
                assert(so_far[j].name == name);
            } else {
                assert(more[more.len() - 1].name == name);
            }
        }
    }
}

/// An import directive: the reference in quotes, the line and column where
/// the reference starts, and the symbols asked for, each once.
#[derive(Debug, PartialEq, Eq)]
pub struct Import {
    pub from: Vec<u8>,
    pub line: usize,
    pub column: usize,
    pub symbols: Vec<Symbol>,
}

impl View for Import {
    type V = ImportView;

    open spec fn view(&self) -> ImportView {
        ImportView {
            from: self.from@,
            line: self.line as nat,
            column: self.column as nat,
            symbols: symbol_views(self.symbols@),
        }
    }
}

/// The imports of a list as the contracts see them.
pub open spec fn import_views_of(imports: Seq<Import>) -> Seq<ImportView> {
    Seq::new(imports.len(), |i: int| imports[i]@)
}

/// One directive.
#[derive(Debug, PartialEq, Eq)]
pub enum Directive {
    Import(Import),
    Export(Vec<Symbol>),
}

impl View for Directive {
    type V = DirectiveView;

    open spec fn view(&self) -> DirectiveView {
        match self {
            Directive::Import(import) => DirectiveView::Import(import@),
            Directive::Export(symbols) => DirectiveView::Export(symbol_views(symbols@)),
        }
    }
}

/// Exec counterpart of [`is_word_byte`].
fn word_byte(b: u8) -> (r: bool)
    ensures
        r == is_word_byte(b),
{
    (48 <= b && b <= 57) || (65 <= b && b <= 90) || (97 <= b && b <= 122) || b == 95
}

/// The index of the first byte of `line` that is not blank.
pub fn skip_blank(line: &Vec<u8>) -> (at: usize)
    ensures
        at == blank_end(line@, 0),
        at <= line.len(),
{
    let mut at: usize = 0;
    while at < line.len() && crate::text::blank(line[at])
        invariant
            at <= line.len(),
            blank_end(line@, 0) == blank_end(line@, at as int),
        decreases line.len() - at,
    {
        at += 1;
    }
    at
}

/// Cuts `line` into tokens from `from` on.
pub fn tokenize(line: &Vec<u8>, from: usize) -> (r: Option<Vec<Token>>)
    ensures
        match r {
            Some(tokens) => {
                &&& lex(line@, from as int) == Some(tokens@)
                &&& forall|j: int|
                    0 <= j < tokens.len() ==> (#[trigger] tokens[j]).start <= tokens[j].end
                        <= line.len() && tokens[j].start < line.len()
                &&& forall|j: int|
                    0 <= j < tokens.len() && (#[trigger] tokens[j]).kind == TokenKind::Word
                        ==> tokens[j].start < tokens[j].end
            },
            None => lex(line@, from as int) is None,
        },
{
    let mut out: Vec<Token> = Vec::new();
    let mut pos: usize = from;
    while pos < line.len()
        invariant
            lex(line@, from as int) == match lex(line@, pos as int) {
                Some(rest) => Some(out@ + rest),
                None => None,
            },
            forall|j: int|
                0 <= j < out.len() ==> (#[trigger] out[j]).start <= out[j].end <= line.len()
                    && out[j].start < line.len(),
            forall|j: int|
                0 <= j < out.len() && (#[trigger] out[j]).kind == TokenKind::Word ==> out[j].start
                    < out[j].end,
        decreases line.len() - pos,
    {
        let b = line[pos];
        let ghost before = out@;
        if crate::text::blank(b) {
            pos += 1;
        } else if b == OPEN || b == CLOSE || b == COMMA || b == STAR {
            let kind = if b == OPEN {
                TokenKind::Open
            } else if b == CLOSE {
                TokenKind::Close
            } else if b == COMMA {
                TokenKind::Comma
            } else {
                TokenKind::Star
            };
            let token = Token { kind, start: pos, end: pos + 1 };
            out.push(token);
            proof {
                let rest = lex(line@, pos + 1);
                if rest is Some {
                    assert(out@ + rest->0 =~= before + (seq![token] + rest->0));
                }
            }
            pos += 1;
        } else if b == QUOTE {
            let mut end: usize = pos + 1;
            while end < line.len() && line[end] != QUOTE
                invariant
                    pos + 1 <= end <= line.len(),
                    text_end(line@, pos + 1) == text_end(line@, end as int),
                decreases line.len() - end,
            {
                end += 1;
            }
            if end >= line.len() {
                return None;
            }
            let token = Token { kind: TokenKind::Text, start: pos + 1, end };
            out.push(token);
            proof {
                let rest = lex(line@, end + 1);
                if rest is Some {
                    assert(out@ + rest->0 =~= before + (seq![token] + rest->0));
                }
            }
            pos = end + 1;
        } else if word_byte(b) {
            let mut end: usize = pos + 1;
            while end < line.len() && word_byte(line[end])
                invariant
                    pos + 1 <= end <= line.len(),
                    word_end(line@, pos + 1) == word_end(line@, end as int),
                decreases line.len() - end,
            {
                end += 1;
            }
            let token = Token { kind: TokenKind::Word, start: pos, end };
            out.push(token);
            proof {
                let rest = lex(line@, end as int);
                if rest is Some {
                    assert(out@ + rest->0 =~= before + (seq![token] + rest->0));
                }
            }
            pos = end;
        } else {
            return None;
        }
    }
    assert(out@ + Seq::<Token>::empty() =~= out@);
    Some(out)
}

/// Reads the symbol list that the tokens from `from` up to `to` hold.
fn read_list(
    line: &Vec<u8>,
    tokens: &Vec<Token>,
    from: usize,
    to: usize,
    star_ok: bool,
    number: usize,
) -> (r: Option<Vec<Symbol>>)
    requires
        from <= to <= tokens.len(),
        forall|j: int|
            0 <= j < tokens.len() ==> (#[trigger] tokens[j]).start <= tokens[j].end <= line.len()
                && tokens[j].start < line.len(),
        forall|j: int|
            0 <= j < tokens.len() && (#[trigger] tokens[j]).kind == TokenKind::Word ==> tokens[j].start
                < tokens[j].end,
    ensures
        r is Some <==> is_list(line@, tokens@, from as int, to as int, star_ok),
        r matches Some(symbols) ==> symbol_views(symbols@) == symbols_of(
            line@,
            tokens@,
            from as int,
            to as int,
            number as nat,
        ),
{
    if from >= to || (to - from) % 2 == 0 {
        return None;
    }
    let mut out: Vec<Symbol> = Vec::new();
    let mut k: usize = from;
    while k < to
        invariant
            from <= k <= to <= tokens.len(),
            (to - from) % 2 == 1,
            forall|j: int|
            0 <= j < tokens.len() ==> (#[trigger] tokens[j]).start <= tokens[j].end <= line.len()
                && tokens[j].start < line.len(),
            forall|j: int|
                0 <= j < tokens.len() && (#[trigger] tokens[j]).kind == TokenKind::Word
                    ==> tokens[j].start < tokens[j].end,
            forall|i: int|
                from <= i < k ==> if (i - from) % 2 == 0 {
                    is_symbol(line@, #[trigger] tokens[i], star_ok)
                } else {
                    tokens[i].kind == TokenKind::Comma
                },
            out.len() == (k - from + 1) / 2,
            forall|j: int|
                0 <= j < out.len() ==> (#[trigger] out[j])@ == symbols_of(
                    line@,
                    tokens@,
                    from as int,
                    to as int,
                    number as nat,
                )[j],
        decreases to - k,
    {
        let token = tokens[k];
        if (k - from) % 2 == 0 {
            let named = token.kind == TokenKind::Word && !(48 <= line[token.start] && line[token.start]
                <= 57);
            let starred = star_ok && token.kind == TokenKind::Star;
            if !named && !starred {
                assert(!is_symbol(line@, tokens[k as int], star_ok));
                return None;
            }
            let symbol = Symbol {
                name: copy_range(line, token.start, token.end),
                line: number,
                column: token.start + 1,
            };
            assert(from + 2 * ((k - from) / 2) == k);
            out.push(symbol);
        } else {
            if token.kind != TokenKind::Comma {
                assert(tokens[k as int].kind != TokenKind::Comma);
                return None;
            }
        }
        k += 1;
    }
    assert(symbol_views(out@) =~= symbols_of(line@, tokens@, from as int, to as int, number as nat));
    Some(out)
}

/// The index in `symbols` of the first symbol named `name`.
pub fn find_name(symbols: &Vec<Symbol>, name: &Vec<u8>) -> (r: Option<usize>)
    ensures
        match r {
            Some(j) => {
                &&& j < symbols.len()
                &&& symbols[j as int].name@ == name@
                &&& forall|k: int| 0 <= k < j ==> (#[trigger] symbols[k]).name@ != name@
            },
            None => !has_name(symbol_views(symbols@), name@),
        },
{
    let mut j: usize = 0;
    while j < symbols.len()
        invariant
            j <= symbols.len(),
            forall|k: int| 0 <= k < j ==> (#[trigger] symbols[k]).name@ != name@,
        decreases symbols.len() - j,
    {
        if same_bytes(&symbols[j].name, name) {
            return Some(j);
        }
        j += 1;
    }
    proof {
        let seen = symbol_views(symbols@);
        assert forall|k: int| 0 <= k < seen.len() implies (#[trigger] seen[k]).name != name@ by {
            assert(symbols[k].name@ != name@);
        }
    }
    None
}

/// Adds to `known` every symbol of `more` whose name it does not hold yet.
pub fn absorb_symbols(known: &mut Vec<Symbol>, more: &Vec<Symbol>)
    ensures
        symbol_views(final(known)@) == absorb(symbol_views(old(known)@), symbol_views(more@)),
{
    let ghost start = symbol_views(known@);
    let ghost all = symbol_views(more@);
    let mut j: usize = 0;
    while j < more.len()
        invariant
            j <= more.len(),
            all == symbol_views(more@),
            symbol_views(known@) == absorb(start, all.take(j as int)),
        decreases more.len() - j,
    {
        let symbol = &more[j];
        proof {
            assert(all.take(j + 1).drop_last() =~= all.take(j as int));
            assert(all.take(j + 1).last() == symbol@);
        }
        let ghost before = symbol_views(known@);
        match find_name(known, &symbol.name) {
            Some(at) => {
                assert(before[at as int].name == symbol@.name);
            },
            None => {
                known.push(
                    Symbol {
                        name: copy_bytes(&symbol.name),
                        line: symbol.line,
                        column: symbol.column,
                    },
                );
                assert(symbol_views(known@) =~= before.push(symbol@));
            },
        }
        j += 1;
    }
    assert(all.take(more.len() as int) =~= all);
}

/// Reads the directive on a directive line. `marker` is where its `#` stands
/// and `number` is the line's number in its file.
pub fn parse_directive(line: &Vec<u8>, marker: usize, number: usize) -> (r: Option<Directive>)
    requires
        marker == blank_end(line@, 0),
        marker < line.len(),
    ensures
        match r {
            Some(directive) => directive_of(line@, number as nat) == Some(directive@),
            None => directive_of(line@, number as nat) is None && directive_of(line@, 0) is None,
        },
{
    let tokens = match tokenize(line, marker + 1) {
        Some(tokens) => tokens,
        None => {
            return None;
        },
    };
    let n = tokens.len();
    if n < 4 || tokens[0].kind != TokenKind::Word || tokens[n - 1].kind != TokenKind::Close {
        return None;
    }
    let keyword = copy_range(line, tokens[0].start, tokens[0].end);
    let import: Vec<u8> = vec![105u8, 109u8, 112u8, 111u8, 114u8, 116u8];
    let export: Vec<u8> = vec![101u8, 120u8, 112u8, 111u8, 114u8, 116u8];
    assert(import@ =~= import_word());
    assert(export@ =~= export_word());
    assert(import_word()[0] != export_word()[0]);
    if same_bytes(&keyword, &import) {
        if n < 5 || tokens[1].kind != TokenKind::Text || tokens[1].start >= tokens[1].end
            || tokens[2].kind != TokenKind::Open {
            return None;
        }
        match read_list(line, &tokens, 3, n - 1, true, number) {
            Some(written) => {
                let mut symbols: Vec<Symbol> = Vec::new();
                assert(symbol_views(symbols@) =~= Seq::<SymbolView>::empty());
                absorb_symbols(&mut symbols, &written);
                Some(
                    Directive::Import(
                        Import {
                            from: copy_range(line, tokens[1].start, tokens[1].end),
                            line: number,
                            column: tokens[1].start + 1,
                            symbols,
                        },
                    ),
                )
            },
            None => None,
        }
    } else if same_bytes(&keyword, &export) {
        if tokens[1].kind != TokenKind::Open {
            return None;
        }
        match read_list(line, &tokens, 2, n - 1, false, number) {
            Some(written) => {
                let mut symbols: Vec<Symbol> = Vec::new();
                assert(symbol_views(symbols@) =~= Seq::<SymbolView>::empty());
                absorb_symbols(&mut symbols, &written);
                Some(Directive::Export(symbols))
            },
            None => None,
        }
    } else {
        None
    }
}

} // verus!
