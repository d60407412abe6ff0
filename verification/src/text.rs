//! Byte-level text helpers shared by the path resolver and the directive
//! parser. All text in this crate is held as bytes.

use vstd::prelude::*;

verus! {

/// The line separator.
pub const NEWLINE: u8 = 10;

/// Blank bytes inside a line: space, tab and carriage return.
pub open spec fn is_blank(b: u8) -> bool {
    b == 32 || b == 9 || b == 13
}

/// Exec counterpart of [`is_blank`].
pub fn blank(b: u8) -> (r: bool)
    ensures
        r == is_blank(b),
{
    b == 32 || b == 9 || b == 13
}

/// Concatenation of `f(0)`, `f(1)`, ..., `f(n - 1)`.
pub open spec fn gather<A>(n: nat, f: spec_fn(int) -> Seq<A>) -> Seq<A>
    decreases n,
{
    if n == 0 {
        Seq::empty()
    } else {
        gather((n - 1) as nat, f) + f(n - 1)
    }
}

/// An element is gathered exactly when one of the pieces holds it.
pub proof fn lemma_gather_contains<A>(n: nat, f: spec_fn(int) -> Seq<A>, x: A)
    ensures
        gather(n, f).contains(x) <==> exists|i: int| 0 <= i < n && #[trigger] f(i).contains(x),
    decreases n,
{
    if n == 0 {
    } else {
        let prev = gather((n - 1) as nat, f);
        lemma_gather_contains((n - 1) as nat, f, x);
        if gather(n, f).contains(x) {
            let k = choose|k: int| 0 <= k < gather(n, f).len() && gather(n, f)[k] == x;
            if k < prev.len() {
                assert(prev[k] == x);
                assert(prev.contains(x));
            } else {
                assert(f(n - 1)[k - prev.len()] == x);
                assert(f(n - 1).contains(x));
            }
        }
        if exists|i: int| 0 <= i < n && #[trigger] f(i).contains(x) {
            let i = choose|i: int| 0 <= i < n && #[trigger] f(i).contains(x);
            if i < n - 1 {
                assert(prev.contains(x));
                let k = choose|k: int| 0 <= k < prev.len() && prev[k] == x;
                assert(gather(n, f)[k] == x);
            } else {
                let last = f(i);
                let k = choose|k: int| 0 <= k < last.len() && last[k] == x;
                assert(gather(n, f)[prev.len() + k] == x);
            }
        }
    }
}

/// Every gathered element comes from one piece: element `x` is element `e`
/// of piece `i`, and stands behind all that the pieces before `i` gave.
pub proof fn lemma_gather_index<A>(n: nat, f: spec_fn(int) -> Seq<A>, x: int) -> (at: (int, int))
    requires
        0 <= x < gather(n, f).len(),
    ensures
        0 <= at.0 < n,
        0 <= at.1 < f(at.0).len(),
        gather(n, f)[x] == f(at.0)[at.1],
        x == gather(at.0 as nat, f).len() + at.1,
    decreases n,
{
    let before = gather((n - 1) as nat, f);
    if x < before.len() {
        lemma_gather_index((n - 1) as nat, f, x)
    } else {
        (n - 1, x - before.len())
    }
}

/// Pieces that are equal one by one gather to the same.
pub proof fn lemma_gather_same<A>(n: nat, f: spec_fn(int) -> Seq<A>, g: spec_fn(int) -> Seq<A>)
    requires
        forall|i: int| 0 <= i < n ==> #[trigger] f(i) == g(i),
    ensures
        gather(n, f) == gather(n, g),
    decreases n,
{
    if n > 0 {
        lemma_gather_same((n - 1) as nat, f, g);
        assert(f(n - 1) == g(n - 1));
    }
}

/// The pieces of `s` between occurrences of `sep`. There is always at least
/// one piece; a trailing separator gives a final empty piece.
pub open spec fn split(s: Seq<u8>, sep: u8) -> Seq<Seq<u8>>
    decreases s.len(),
{
    if s.len() == 0 {
        seq![Seq::empty()]
    } else {
        let before = split(s.drop_last(), sep);
        if s.last() == sep {
            before.push(Seq::empty())
        } else {
            before.update(before.len() - 1, before.last().push(s.last()))
        }
    }
}

/// The pieces put together again with `sep` between neighbours.
pub open spec fn join(parts: Seq<Seq<u8>>, sep: u8) -> Seq<u8>
    decreases parts.len(),
{
    if parts.len() == 0 {
        Seq::empty()
    } else if parts.len() == 1 {
        parts[0]
    } else {
        join(parts.drop_last(), sep) + seq![sep] + parts.last()
    }
}

/// Splitting never yields an empty list, and no piece holds the separator.
pub proof fn lemma_split_pieces(s: Seq<u8>, sep: u8)
    ensures
        split(s, sep).len() >= 1,
        forall|k: int, i: int|
            0 <= k < split(s, sep).len() && 0 <= i < split(s, sep)[k].len() ==> split(
                s,
                sep,
            )[k][i] != sep,
    decreases s.len(),
{
    if s.len() > 0 {
        lemma_split_pieces(s.drop_last(), sep);
    }
}

/// Joining the pieces of a text gives the text back.
pub proof fn lemma_join_split(s: Seq<u8>, sep: u8)
    ensures
        join(split(s, sep), sep) == s,
    decreases s.len(),
{
    if s.len() == 0 {
    } else {
        let before = split(s.drop_last(), sep);
        lemma_join_split(s.drop_last(), sep);
        lemma_split_pieces(s.drop_last(), sep);
        let now = split(s, sep);
        if s.last() == sep {
            assert(now.drop_last() =~= before);
            assert(join(now, sep) =~= s);
        } else {
            if before.len() == 1 {
                assert(join(now, sep) =~= s);
            } else {
                assert(now.drop_last() =~= before.drop_last());
                assert(join(before, sep) == join(before.drop_last(), sep) + seq![sep]
                    + before.last());
                assert(join(now, sep) == join(now.drop_last(), sep) + seq![sep] + now.last());
                assert(s =~= s.drop_last().push(s.last()));
                assert(join(now, sep) =~= s);
            }
        }
    }
}

/// The byte strings held by a list of vectors.
pub open spec fn views(parts: Seq<Vec<u8>>) -> Seq<Seq<u8>> {
    Seq::new(parts.len(), |i: int| parts[i]@)
}

/// Whether two byte strings hold the same bytes.
pub fn same_bytes(a: &Vec<u8>, b: &Vec<u8>) -> (r: bool)
    ensures
        r == (a@ == b@),
{
    if a.len() != b.len() {
        return false;
    }
    let mut i: usize = 0;
    while i < a.len()
        invariant
            a.len() == b.len(),
            i <= a.len(),
            a@.take(i as int) == b@.take(i as int),
        decreases a.len() - i,
    {
        if a[i] != b[i] {
            return false;
        }
        assert(a@.take(i + 1) =~= a@.take(i as int).push(a@[i as int]));
        assert(b@.take(i + 1) =~= b@.take(i as int).push(b@[i as int]));
        i += 1;
    }
    assert(a@ =~= a@.take(a.len() as int));
    assert(b@ =~= b@.take(b.len() as int));
    true
}

/// A copy of `a`.
pub fn copy_bytes(a: &Vec<u8>) -> (r: Vec<u8>)
    ensures
        r@ == a@,
{
    let mut r: Vec<u8> = Vec::new();
    let mut i: usize = 0;
    while i < a.len()
        invariant
            i <= a.len(),
            r@ == a@.take(i as int),
        decreases a.len() - i,
    {
        r.push(a[i]);
        assert(a@.take(i + 1) =~= a@.take(i as int).push(a@[i as int]));
        i += 1;
    }
    assert(a@ =~= a@.take(a.len() as int));
    r
}

/// A copy of the bytes of `a` from `start` up to `end`.
pub fn copy_range(a: &Vec<u8>, start: usize, end: usize) -> (r: Vec<u8>)
    requires
        start <= end <= a.len(),
    ensures
        r@ == a@.subrange(start as int, end as int),
{
    let mut r: Vec<u8> = Vec::new();
    let mut i: usize = start;
    while i < end
        invariant
            start <= i <= end <= a.len(),
            r@ == a@.subrange(start as int, i as int),
        decreases end - i,
    {
        r.push(a[i]);
        assert(a@.subrange(start as int, i + 1) =~= a@.subrange(start as int, i as int).push(
            a@[i as int],
        ));
        i += 1;
    }
    r
}

/// Appends the bytes of `tail` to `head`.
pub fn append_bytes(head: &mut Vec<u8>, tail: &Vec<u8>)
    ensures
        final(head)@ == old(head)@ + tail@,
{
    let mut k: usize = 0;
    while k < tail.len()
        invariant
            k <= tail.len(),
            head@ == old(head)@ + tail@.take(k as int),
        decreases tail.len() - k,
    {
        head.push(tail[k]);
        assert(tail@.take(k + 1) =~= tail@.take(k as int).push(tail@[k as int]));
        assert(head@ =~= old(head)@ + tail@.take(k + 1));
        k += 1;
    }
    assert(tail@.take(tail.len() as int) =~= tail@);
}

/// Splits `s` at every `sep`.
pub fn split_bytes(s: &Vec<u8>, sep: u8) -> (parts: Vec<Vec<u8>>)
    ensures
        parts.len() >= 1,
        views(parts@) == split(s@, sep),
{
    let mut parts: Vec<Vec<u8>> = Vec::new();
    let mut piece: Vec<u8> = Vec::new();
    let mut i: usize = 0;
    while i < s.len()
        invariant
            i <= s.len(),
            split(s@.take(i as int), sep) == views(parts@).push(piece@),
        decreases s.len() - i,
    {
        let b = s[i];
        proof {
            assert(s@.take(i + 1).drop_last() =~= s@.take(i as int));
        }
        if b == sep {
            let ghost before = views(parts@);
            let ghost done = piece@;
            parts.push(piece);
            piece = Vec::new();
            assert(views(parts@) =~= before.push(done));
        } else {
            piece.push(b);
            assert(split(s@.take(i + 1), sep) =~= views(parts@).push(piece@));
        }
        i += 1;
    }
    assert(s@ =~= s@.take(s.len() as int));
    let ghost before = views(parts@);
    let ghost done = piece@;
    parts.push(piece);
    assert(views(parts@) =~= before.push(done));
    parts
}

} // verus!
