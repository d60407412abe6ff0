//! Finding the file that asks for a module when the host cannot tell: the
//! file is looked for by its text. It must hold the reference in quotes, and
//! of the files looked at exactly one may do so.

use crate::directive::QUOTE;
use crate::path::{components, components_of, here_mark, root_mark, DOT, SLASH};
use crate::text::{append_bytes, copy_range, same_bytes};
use vstd::prelude::*;

verus! {

/// The reference in quotes: the text that the asking file must hold.
pub open spec fn in_quotes(reference: Seq<u8>) -> Seq<u8> {
    seq![QUOTE] + reference + seq![QUOTE]
}

/// Whether `pattern` stands in `text` at index `i`.
pub open spec fn stands_at(text: Seq<u8>, pattern: Seq<u8>, i: int) -> bool {
    0 <= i <= text.len() - pattern.len() && text.subrange(i, i + pattern.len()) == pattern
}

/// Whether `pattern` stands somewhere in `text`.
pub open spec fn holds_pattern(text: Seq<u8>, pattern: Seq<u8>) -> bool {
    exists|i: int| #[trigger] stands_at(text, pattern, i)
}

/// The file name of a path: its last component, unless that is the root, a
/// `.` or a `..`.
pub open spec fn file_name_of(path: Seq<u8>) -> Option<Seq<u8>> {
    let list = components_of(path);
    if list.len() == 0 {
        None
    } else if list.last() == root_mark() || list.last() == here_mark() || list.last() == seq![
        DOT,
        DOT,
    ] {
        None
    } else {
        Some(list.last())
    }
}

/// The index of the last dot of `name`, or -1 where it has none.
pub open spec fn last_dot(name: Seq<u8>) -> int
    decreases name.len(),
{
    if name.len() == 0 {
        -1
    } else if name.last() == DOT {
        name.len() - 1
    } else {
        last_dot(name.drop_last())
    }
}

/// The extension of a path: what follows the last dot of its file name. It
/// is empty where there is no file name, where the name has no dot, and
/// where its only dot is its first byte.
pub open spec fn extension_of(path: Seq<u8>) -> Seq<u8> {
    match file_name_of(path) {
        Some(name) => if last_dot(name) > 0 {
            name.skip(last_dot(name) + 1)
        } else {
            Seq::empty()
        },
        None => Seq::empty(),
    }
}

/// The number of hits.
pub open spec fn count_hits(hits: Seq<bool>) -> nat
    decreases hits.len(),
{
    if hits.len() == 0 {
        0
    } else {
        count_hits(hits.drop_last()) + if hits.last() {
            1nat
        } else {
            0nat
        }
    }
}

/// Which of the files looked at asks for the module.
#[derive(Clone, Copy, Debug, PartialEq, Eq)]
pub enum Contender {
    /// No file holds the reference.
    Nobody,
    /// The file with this index holds it, and no other.
    Only(usize),
    /// More than one file holds it.
    Several,
}

/// The reference in quotes.
pub fn quoted(reference: &Vec<u8>) -> (pattern: Vec<u8>)
    ensures
        pattern@ == in_quotes(reference@),
{
    let mut pattern: Vec<u8> = Vec::new();
    pattern.push(QUOTE);
    append_bytes(&mut pattern, reference);
    pattern.push(QUOTE);
    assert(pattern@ =~= in_quotes(reference@));
    pattern
}

/// Whether `pattern` stands in `text` at index `at`.
fn matches_at(text: &Vec<u8>, pattern: &Vec<u8>, at: usize) -> (r: bool)
    requires
        at + pattern.len() <= text.len(),
    ensures
        r == stands_at(text@, pattern@, at as int),
{
    let mut k: usize = 0;
    while k < pattern.len()
        invariant
            k <= pattern.len(),
            at + pattern.len() <= text.len(),
            forall|x: int| 0 <= x < k ==> text@[at + x] == pattern@[x],
        decreases pattern.len() - k,
    {
        if text[at + k] != pattern[k] {
            assert(text@.subrange(at as int, at + pattern.len())[k as int] != pattern@[k as int]);
            return false;
        }
        k += 1;
    }
    assert(text@.subrange(at as int, at + pattern.len()) =~= pattern@);
    true
}

/// Whether `pattern` stands somewhere in `text`.
pub fn contains_pattern(text: &Vec<u8>, pattern: &Vec<u8>) -> (r: bool)
    ensures
        r == holds_pattern(text@, pattern@),
{
    if pattern.len() > text.len() {
        return false;
    }
    let last = text.len() - pattern.len();
    let mut at: usize = 0;
    loop
        invariant
            at <= last,
            last == text.len() - pattern.len(),
            forall|i: int| 0 <= i < at ==> !#[trigger] stands_at(text@, pattern@, i),
        decreases last - at,
    {
        if matches_at(text, pattern, at) {
            return true;
        }
        if at == last {
            return false;
        }
        at += 1;
    }
}

/// Whether `bytes` is empty.
fn is_empty(bytes: &Vec<u8>) -> (r: bool)
    ensures
        r == (Seq::<u8>::empty() == bytes@),
{
    let r = bytes.len() == 0;
    assert(r ==> bytes@ =~= Seq::<u8>::empty());
    r
}

/// Whether the extension of `path` is `extension`. A path without an
/// extension has the empty one.
pub fn with_extension(path: &Vec<u8>, extension: &Vec<u8>) -> (r: bool)
    ensures
        r == (extension_of(path@) == extension@),
{
    let list = components(path);
    if list.len() == 0 {
        return is_empty(extension);
    }
    let name = &list[list.len() - 1];
    assert(name@ == components_of(path@).last());
    let n = name.len();
    let root = n == 1 && name[0] == SLASH;
    let here = n == 1 && name[0] == DOT;
    let up = n == 2 && name[0] == DOT && name[1] == DOT;
    assert(root == (name@ == root_mark())) by {
        if root {
            assert(name@ =~= root_mark());
        }
    }
    assert(here == (name@ == here_mark())) by {
        if here {
            assert(name@ =~= here_mark());
        }
    }
    assert(up == (name@ == seq![DOT, DOT])) by {
        if up {
            assert(name@ =~= seq![DOT, DOT]);
        }
    }
    if root || here || up {
        return is_empty(extension);
    }
    let mut d: usize = n;
    assert(name@.take(n as int) =~= name@);
    while d > 0 && name[d - 1] != DOT
        invariant
            d <= n == name.len(),
            last_dot(name@) == last_dot(name@.take(d as int)),
        decreases d,
    {
        assert(name@.take(d as int).drop_last() =~= name@.take(d - 1));
        d -= 1;
    }
    if d <= 1 {
        assert(last_dot(name@) <= 0);
        return is_empty(extension);
    }
    assert(last_dot(name@) == d - 1);
    let found = copy_range(name, d, n);
    assert(found@ =~= name@.skip(d as int));
    same_bytes(&found, extension)
}

/// Picks the one file that holds the reference. `hits` says of each file
/// looked at whether it does.
pub fn sole_contender(hits: &Vec<bool>) -> (r: Contender)
    ensures
        match r {
            Contender::Nobody => count_hits(hits@) == 0,
            Contender::Only(i) => count_hits(hits@) == 1 && i < hits@.len() && hits@[i as int],
            Contender::Several => count_hits(hits@) >= 2,
        },
{
    let mut found = Contender::Nobody;
    let mut i: usize = 0;
    assert(hits@.take(0) =~= Seq::<bool>::empty());
    while i < hits.len()
        invariant
            i <= hits.len(),
            match found {
                Contender::Nobody => count_hits(hits@.take(i as int)) == 0,
                Contender::Only(at) => count_hits(hits@.take(i as int)) == 1 && at < i && hits@[at as int],
                Contender::Several => count_hits(hits@.take(i as int)) >= 2,
            },
        decreases hits.len() - i,
    {
        assert(hits@.take(i + 1).drop_last() =~= hits@.take(i as int));
        if hits[i] {
            found = match found {
                Contender::Nobody => Contender::Only(i),
                _ => Contender::Several,
            };
        }
        i += 1;
    }
    assert(hits@.take(hits.len() as int) =~= hits@);
    found
}

} // verus!
