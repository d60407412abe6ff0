//! From an offset in the merged text back to a place in the file it came
//! from: the module whose body covers the offset, and the line and column
//! there, both counted from 1. Lines that were taken out of the body are
//! counted too, so the line is the one an editor shows for the file.

use crate::flatten::{merged, offsets, start_of, FlattenedUnit};
use crate::graph::{is_closed, node_parsed, ModuleNode};
use crate::parse::{kept_at, kept_in, parsed};
use crate::path::{place_view, Location, LocationView};
use crate::text::{join, lemma_split_pieces, split, NEWLINE};
use vstd::prelude::*;

verus! {

/// The number of newlines among the first `at` bytes of `body`.
pub open spec fn newlines(body: Seq<u8>, at: int) -> nat
    decreases at,
{
    if at <= 0 {
        0
    } else {
        newlines(body, at - 1) + if body[at - 1] == NEWLINE {
            1nat
        } else {
            0nat
        }
    }
}

/// Where the line that holds byte `at` of `body` starts.
pub open spec fn line_start(body: Seq<u8>, at: int) -> int
    decreases at,
{
    if at <= 0 {
        0
    } else if body[at - 1] == NEWLINE {
        at
    } else {
        line_start(body, at - 1)
    }
}

/// Whether the body of module `i` covers `offset` of the merged text.
pub open spec fn covers(nodes: Seq<ModuleNode>, i: int, offset: int) -> bool {
    start_of(nodes, i) <= offset < start_of(nodes, i + 1)
}

/// The place in the file of `node` of byte `local` of its body.
pub open spec fn place_in(node: ModuleNode, local: int) -> LocationView {
    let body = node.module@.body;
    LocationView {
        module: node.id@,
        line: node.module@.kept[newlines(body, local) as int],
        column: (local - line_start(body, local) + 1) as nat,
    }
}

/// The place that byte `offset` of the merged text comes from. There is
/// none where the offset lies behind the text.
pub open spec fn located(nodes: Seq<ModuleNode>, offset: int) -> Option<LocationView> {
    if exists|i: int| 0 <= i < nodes.len() && #[trigger] covers(nodes, i, offset) {
        let i = choose|i: int| 0 <= i < nodes.len() && #[trigger] covers(nodes, i, offset);
        Some(place_in(nodes[i], offset - start_of(nodes, i)))
    } else {
        None
    }
}

/// The body of a module starts where the body before it ends.
pub proof fn lemma_next_start(nodes: Seq<ModuleNode>, i: int)
    requires
        0 <= i,
    ensures
        start_of(nodes, i + 1) == start_of(nodes, i) + nodes[i].module@.body.len(),
{
    assert(merged(nodes, (i + 1) as nat) == merged(nodes, i as nat) + nodes[i].module@.body);
}

/// Bodies stand in the merged text in the order of their modules.
pub proof fn lemma_starts_ordered(nodes: Seq<ModuleNode>, a: int, b: int)
    requires
        0 <= a <= b,
    ensures
        start_of(nodes, a) <= start_of(nodes, b),
    decreases b - a,
{
    if a < b {
        lemma_starts_ordered(nodes, a, b - 1);
        lemma_next_start(nodes, b - 1);
    }
}

/// No offset is covered by two bodies.
pub proof fn lemma_one_cover(nodes: Seq<ModuleNode>, i: int, j: int, offset: int)
    requires
        0 <= i,
        0 <= j,
        covers(nodes, i, offset),
        covers(nodes, j, offset),
    ensures
        i == j,
{
    if i < j {
        lemma_starts_ordered(nodes, i + 1, j);
    }
    if j < i {
        lemma_starts_ordered(nodes, j + 1, i);
    }
}

/// Two texts that agree on their first `at` bytes have the same newlines
/// there.
proof fn lemma_newlines_agree(s: Seq<u8>, t: Seq<u8>, at: int)
    requires
        forall|x: int| 0 <= x < at ==> s[x] == t[x],
    ensures
        newlines(s, at) == newlines(t, at),
    decreases at,
{
    if at > 0 {
        lemma_newlines_agree(s, t, at - 1);
    }
}

/// The count of newlines never falls along a text.
proof fn lemma_newlines_grow(s: Seq<u8>, a: int, b: int)
    requires
        a <= b,
    ensures
        newlines(s, a) <= newlines(s, b),
    decreases b - a,
{
    if a < b {
        lemma_newlines_grow(s, a, b - 1);
    }
}

/// The newlines of two texts put together are those of each.
proof fn lemma_newlines_add(a: Seq<u8>, b: Seq<u8>, m: int)
    requires
        0 <= m <= b.len(),
    ensures
        newlines(a + b, a.len() + m) == newlines(a, a.len() as int) + newlines(b, m),
    decreases m,
{
    if m == 0 {
        lemma_newlines_agree(a + b, a, a.len() as int);
    } else {
        lemma_newlines_add(a, b, m - 1);
        assert((a + b)[a.len() + m - 1] == b[m - 1]);
    }
}

/// A text without newlines has none.
proof fn lemma_no_newlines(s: Seq<u8>, at: int)
    requires
        at <= s.len(),
        forall|x: int| 0 <= x < s.len() ==> s[x] != NEWLINE,
    ensures
        newlines(s, at) == 0,
    decreases at,
{
    if at > 0 {
        lemma_no_newlines(s, at - 1);
    }
}

/// Rows without newlines, joined by newlines, hold one newline fewer than
/// there are rows.
proof fn lemma_join_newlines(rows: Seq<Seq<u8>>)
    requires
        rows.len() >= 1,
        forall|r: int, x: int| 0 <= r < rows.len() && 0 <= x < rows[r].len() ==> rows[r][x] != NEWLINE,
    ensures
        newlines(join(rows, NEWLINE), join(rows, NEWLINE).len() as int) == rows.len() - 1,
    decreases rows.len(),
{
    if rows.len() == 1 {
        lemma_no_newlines(rows[0], rows[0].len() as int);
    } else {
        let front = rows.drop_last();
        lemma_join_newlines(front);
        let head = join(front, NEWLINE) + seq![NEWLINE];
        lemma_newlines_add(join(front, NEWLINE), seq![NEWLINE], 1);
        lemma_no_newlines(rows.last(), rows.last().len() as int);
        lemma_newlines_add(head, rows.last(), rows.last().len() as int);
        assert(newlines(seq![NEWLINE], 1) == 1) by {
            assert(newlines(seq![NEWLINE], 0) == 0);
        }
    }
}

/// The kept line numbers lie among the numbers of the lines looked at.
proof fn lemma_kept_bounds(lines: Seq<Seq<u8>>, n: nat)
    ensures
        forall|x: int|
            0 <= x < kept_in(lines, n).len() ==> 1 <= #[trigger] kept_in(lines, n)[x] <= n,
    decreases n,
{
    if n > 0 {
        lemma_kept_bounds(lines, (n - 1) as nat);
        assert(kept_in(lines, n) == kept_in(lines, (n - 1) as nat) + kept_at(lines, n - 1));
    }
}

/// A body has a kept line for each of its rows: an empty list of kept
/// lines means an empty body, and any other list is one longer than the
/// body has newlines.
pub proof fn lemma_body_rows(source: Seq<u8>)
    ensures
        parsed(source).kept.len() == 0 ==> parsed(source).body.len() == 0,
        parsed(source).kept.len() > 0 ==> newlines(
            parsed(source).body,
            parsed(source).body.len() as int,
        ) == parsed(source).kept.len() - 1,
{
    let lines = split(source, NEWLINE);
    let kept = kept_in(lines, lines.len());
    let rows = Seq::new(kept.len(), |k: int| lines[kept[k] - 1]);
    lemma_kept_bounds(lines, lines.len());
    lemma_split_pieces(source, NEWLINE);
    if kept.len() > 0 {
        assert forall|r: int, x: int| 0 <= r < rows.len() && 0 <= x < rows[r].len() implies rows[r][x]
            != NEWLINE by {
            assert(1 <= kept[r] <= lines.len());
        }
        lemma_join_newlines(rows);
    }
}

/// Two texts that agree on their first `at` bytes have their lines start
/// at the same places there.
proof fn lemma_line_start_agree(s: Seq<u8>, t: Seq<u8>, at: int)
    requires
        forall|x: int| 0 <= x < at ==> s[x] == t[x],
    ensures
        line_start(s, at) == line_start(t, at),
    decreases at,
{
    if at > 0 {
        lemma_line_start_agree(s, t, at - 1);
    }
}

/// Behind a newline at `p`, and before the next one, the line starts at
/// `p + 1`.
proof fn lemma_line_start_after(s: Seq<u8>, p: int, at: int)
    requires
        0 <= p < at,
        s[p] == NEWLINE,
        forall|x: int| p < x < at ==> s[x] != NEWLINE,
    ensures
        line_start(s, at) == p + 1,
    decreases at - p,
{
    if at > p + 1 {
        lemma_line_start_after(s, p, at - 1);
    }
}

/// Before the first newline, the line starts at 0.
proof fn lemma_line_start_first(s: Seq<u8>, at: int)
    requires
        forall|x: int| 0 <= x < at ==> s[x] != NEWLINE,
    ensures
        line_start(s, at) == 0,
    decreases at,
{
    if at > 0 {
        lemma_line_start_first(s, at - 1);
    }
}

/// In rows joined by newlines, a byte that is no newline is byte `c` of
/// row `r`, where `r` counts the newlines before it and `c` the bytes since
/// its line started.
proof fn lemma_join_position(rows: Seq<Seq<u8>>, at: int)
    requires
        rows.len() >= 1,
        forall|r: int, x: int| 0 <= r < rows.len() && 0 <= x < rows[r].len() ==> rows[r][x] != NEWLINE,
        0 <= at < join(rows, NEWLINE).len(),
        join(rows, NEWLINE)[at] != NEWLINE,
    ensures
        newlines(join(rows, NEWLINE), at) < rows.len(),
        0 <= at - line_start(join(rows, NEWLINE), at) < rows[newlines(
            join(rows, NEWLINE),
            at,
        ) as int].len(),
        rows[newlines(join(rows, NEWLINE), at) as int][at - line_start(join(rows, NEWLINE), at)]
            == join(rows, NEWLINE)[at],
    decreases rows.len(),
{
    let all = join(rows, NEWLINE);
    if rows.len() == 1 {
        lemma_no_newlines(rows[0], at);
        lemma_line_start_first(rows[0], at);
    } else {
        let front = rows.drop_last();
        let head = join(front, NEWLINE);
        let last = rows.last();
        assert(all == head + seq![NEWLINE] + last);
        if at < head.len() {
            lemma_newlines_agree(all, head, at);
            lemma_line_start_agree(all, head, at);
            lemma_join_position(front, at);
        } else {
            let c = at - head.len() - 1;
            assert(all[head.len() as int] == NEWLINE);
            assert forall|x: int| head.len() < x < at implies all[x] != NEWLINE by {
                assert(all[x] == last[x - head.len() - 1]);
            }
            lemma_line_start_after(all, head.len() as int, at);
            lemma_join_newlines(front);
            lemma_newlines_add(head, seq![NEWLINE], 1);
            assert(newlines(seq![NEWLINE], 1) == 1) by {
                assert(newlines(seq![NEWLINE], 0) == 0);
            }
            lemma_no_newlines(last, c);
            lemma_newlines_add(head + seq![NEWLINE], last, c);
            assert(all[at] == last[c]);
        }
    }
}

/// The place of a byte of a module's body is where that byte stands in
/// the module's file: line `line` of the file holds it at column `column`.
/// A newline ends a line and belongs to none.
pub proof fn lemma_place_is_exact(node: ModuleNode, local: int)
    requires
        node_parsed(node),
        0 <= local < node.module@.body.len(),
        node.module@.body[local] != NEWLINE,
    ensures
        1 <= place_in(node, local).line <= split(node.source@, NEWLINE).len(),
        1 <= place_in(node, local).column <= split(node.source@, NEWLINE)[place_in(
            node,
            local,
        ).line - 1].len(),
        split(node.source@, NEWLINE)[place_in(node, local).line - 1][place_in(node, local).column
            - 1] == node.module@.body[local],
{
    let lines = split(node.source@, NEWLINE);
    let kept = kept_in(lines, lines.len());
    let rows = Seq::new(kept.len(), |k: int| lines[kept[k] - 1]);
    lemma_kept_bounds(lines, lines.len());
    lemma_split_pieces(node.source@, NEWLINE);
    lemma_body_rows(node.source@);
    assert forall|r: int, x: int| 0 <= r < rows.len() && 0 <= x < rows[r].len() implies rows[r][x]
        != NEWLINE by {
        assert(1 <= kept[r] <= lines.len());
    }
    lemma_join_position(rows, local);
    let r = newlines(node.module@.body, local) as int;
    assert(1 <= kept[r] <= lines.len());
}

/// Every byte of the merged text is covered by the body of a module.
pub proof fn lemma_some_cover(nodes: Seq<ModuleNode>, n: int, offset: int) -> (i: int)
    requires
        0 <= n,
        0 <= offset < merged(nodes, n as nat).len(),
    ensures
        0 <= i < n,
        covers(nodes, i, offset),
    decreases n,
{
    if offset < start_of(nodes, n - 1) {
        lemma_some_cover(nodes, n - 1, offset)
    } else {
        n - 1
    }
}

/// The place that an offset of the merged text comes from is where the byte
/// at that offset stands in the file of one of the modules.
pub proof fn lemma_located_is_exact(nodes: Seq<ModuleNode>, offset: int) -> (i: int)
    requires
        forall|x: int| 0 <= x < nodes.len() ==> node_parsed(#[trigger] nodes[x]),
        0 <= offset < merged(nodes, nodes.len()).len(),
        merged(nodes, nodes.len())[offset] != NEWLINE,
    ensures
        0 <= i < nodes.len(),
        located(nodes, offset) matches Some(place) && place.module == nodes[i].id@ && 1
            <= place.line <= split(nodes[i].source@, NEWLINE).len() && 1 <= place.column <= split(
            nodes[i].source@,
            NEWLINE,
        )[place.line - 1].len() && split(nodes[i].source@, NEWLINE)[place.line - 1][place.column
            - 1] == merged(nodes, nodes.len())[offset],
{
    let cover = lemma_some_cover(nodes, nodes.len() as int, offset);
    let i = choose|i: int| 0 <= i < nodes.len() && #[trigger] covers(nodes, i, offset);
    let local = offset - start_of(nodes, i);
    lemma_next_start(nodes, i);
    lemma_segment(nodes, i, nodes.len() as int);
    assert(merged(nodes, nodes.len())[offset] == merged(nodes, nodes.len()).subrange(
        start_of(nodes, i),
        start_of(nodes, i + 1),
    )[local]);
    lemma_place_is_exact(nodes[i], local);
    i
}

/// The body of module `i` stands in the merged text from its start up to
/// the start of the module after it.
pub proof fn lemma_segment(nodes: Seq<ModuleNode>, i: int, n: int)
    requires
        0 <= i < n,
    ensures
        start_of(nodes, i + 1) <= merged(nodes, n as nat).len(),
        merged(nodes, n as nat).subrange(start_of(nodes, i), start_of(nodes, i + 1))
            == nodes[i].module@.body,
    decreases n - i,
{
    lemma_next_start(nodes, i);
    if n == i + 1 {
        assert(merged(nodes, n as nat) == merged(nodes, i as nat) + nodes[i].module@.body);
        assert(merged(nodes, n as nat).subrange(start_of(nodes, i), start_of(nodes, i + 1))
            =~= nodes[i].module@.body);
    } else {
        lemma_segment(nodes, i, n - 1);
        assert(merged(nodes, n as nat) == merged(nodes, (n - 1) as nat) + nodes[n - 1].module@.body);
        assert(merged(nodes, n as nat).subrange(start_of(nodes, i), start_of(nodes, i + 1))
            =~= merged(nodes, (n - 1) as nat).subrange(start_of(nodes, i), start_of(nodes, i + 1)));
    }
}

/// The line and column of byte `local` of the body of `node`, in the
/// module's file.
fn place(node: &ModuleNode, local: usize) -> (r: (usize, usize))
    requires
        node_parsed(*node),
        local < node.module@.body.len(),
    ensures
        r.0 == place_in(*node, local as int).line,
        r.1 == place_in(*node, local as int).column,
{
    let body = &node.module.body;
    let mut row: usize = 0;
    let mut begin: usize = 0;
    let mut p: usize = 0;
    while p < local
        invariant
            p <= local < body.len(),
            row == newlines(body@, p as int),
            begin == line_start(body@, p as int),
            row <= p,
            begin <= p,
        decreases local - p,
    {
        if body[p] == NEWLINE {
            row += 1;
            begin = p + 1;
        }
        p += 1;
    }
    proof {
        lemma_body_rows(node.source@);
        lemma_newlines_grow(body@, local as int, body@.len() as int);
    }
    (node.module.kept[row], local - begin + 1)
}

/// The place that byte `offset` of the unit's text comes from, or `None`
/// where the offset lies behind the text.
pub fn locate(unit: &FlattenedUnit, offset: usize) -> (r: Option<Location>)
    ensures
        place_view(r) == located(unit.graph().nodes(), offset as int),
{
    let graph = unit.module_graph();
    let starts = unit.body_starts();
    let ghost nodes = graph.nodes();
    let n = graph.len();
    let mut i: usize = 0;
    assert(offsets(starts@).len() == nodes.len());
    assert forall|x: int| 0 <= x < n implies #[trigger] starts@[x] as int == start_of(nodes, x) by {
        assert(offsets(starts@)[x] == start_of(nodes, x));
    }
    while i < n
        invariant
            i <= n == nodes.len(),
            nodes == graph.nodes(),
            nodes == unit.graph().nodes(),
            graph.wf(),
            starts.len() == n,
            forall|x: int| 0 <= x < n ==> #[trigger] starts@[x] as int == start_of(nodes, x),
            forall|x: int| 0 <= x < i ==> !#[trigger] covers(nodes, x, offset as int),
        decreases n - i,
    {
        let node = graph.node(i);
        let start = starts[i];
        proof {
            lemma_next_start(nodes, i as int);
            assert(is_closed(nodes, i as int, graph.root()));
        }
        if start <= offset && offset - start < node.module.body.len() {
            let (line, column) = place(node, offset - start);
            proof {
                assert(covers(nodes, i as int, offset as int));
                let chosen = choose|x: int| 0 <= x < nodes.len() && #[trigger] covers(nodes, x, offset as int);
                lemma_one_cover(nodes, chosen, i as int, offset as int);
            }
            let found = Location { module: node.id.duplicate(), line, column };
            assert(found@ == place_in(nodes[i as int], offset - start_of(nodes, i as int)));
            return Some(found);
        }
        i += 1;
    }
    None
}

} // verus!
