//! Module identities and the resolution of import references to them.
//!
//! A module is identified by the absolute path of its file, written with `/`
//! between components and without `.` or `..`. Resolution is lexical: it
//! never touches the file system. Whether the file exists is found out by
//! whoever reads it.
//!
//! Paths that come from elsewhere, written in any way, are compared by
//! their components.

use crate::text::{copy_bytes, same_bytes, split, split_bytes, views};
use vstd::prelude::*;

verus! {

/// The component separator.
pub const SLASH: u8 = 47;

/// The byte `.`.
pub const DOT: u8 = 46;

/// The identity of one module: the absolute path of its file.
#[derive(Debug, PartialEq, Eq)]
pub struct ModuleId {
    path: Vec<u8>,
}

impl View for ModuleId {
    type V = Seq<u8>;

    open spec fn view(&self) -> Seq<u8> {
        self.bytes()
    }
}

impl ModuleId {
    /// The bytes of the path.
    pub closed spec fn bytes(&self) -> Seq<u8> {
        self.path@
    }

    /// The module whose file is at `path`.
    pub fn new(path: Vec<u8>) -> (id: ModuleId)
        ensures
            id@ == path@,
    {
        ModuleId { path }
    }

    /// The path of the module's file.
    pub fn as_bytes(&self) -> (path: &Vec<u8>)
        ensures
            path@ == self@,
    {
        &self.path
    }

    /// A second handle on the same module.
    pub fn duplicate(&self) -> (id: ModuleId)
        ensures
            id@ == self@,
    {
        ModuleId { path: copy_bytes(&self.path) }
    }

    /// Whether both name the same module.
    pub fn same(&self, other: &ModuleId) -> (r: bool)
        ensures
            r == (self@ == other@),
    {
        same_bytes(&self.path, &other.path)
    }
}

/// A place in a module's file: line and column, counted from 1.
#[derive(Debug, PartialEq, Eq)]
pub struct Location {
    pub module: ModuleId,
    pub line: usize,
    pub column: usize,
}

/// A place as the contracts see it.
pub struct LocationView {
    pub module: Seq<u8>,
    pub line: nat,
    pub column: nat,
}

impl View for Location {
    type V = LocationView;

    open spec fn view(&self) -> LocationView {
        LocationView { module: self.module@, line: self.line as nat, column: self.column as nat }
    }
}

/// A place that may be unknown, as the contracts see it.
pub open spec fn place_view(place: Option<Location>) -> Option<LocationView> {
    match place {
        Some(location) => Some(location@),
        None => None,
    }
}

/// The directory below which every module must lie.
#[derive(Debug, PartialEq, Eq)]
pub struct ProjectRoot {
    dir: Vec<u8>,
}

impl View for ProjectRoot {
    type V = Seq<u8>;

    open spec fn view(&self) -> Seq<u8> {
        self.bytes()
    }
}

/// `p` without the slashes at its end.
pub open spec fn without_trailing_slashes(p: Seq<u8>) -> Seq<u8>
    decreases p.len(),
{
    if p.len() > 0 && p.last() == SLASH {
        without_trailing_slashes(p.drop_last())
    } else {
        p
    }
}

impl ProjectRoot {
    /// The bytes of the directory's path, which never end in a slash.
    pub closed spec fn bytes(&self) -> Seq<u8> {
        self.dir@
    }

    /// The root at `dir`. Slashes at the end of `dir` are dropped, so the
    /// file system's own root is the empty path.
    pub fn new(dir: Vec<u8>) -> (root: ProjectRoot)
        ensures
            root@ == without_trailing_slashes(dir@),
    {
        let ghost given = dir@;
        let mut dir = dir;
        while dir.len() > 0 && dir[dir.len() - 1] == SLASH
            invariant
                without_trailing_slashes(dir@) == without_trailing_slashes(given),
            decreases dir.len(),
        {
            let ghost before = dir@;
            dir.pop();
            assert(dir@ == before.drop_last());
        }
        ProjectRoot { dir }
    }

    /// The path of the directory.
    pub fn as_bytes(&self) -> (path: &Vec<u8>)
        ensures
            path@ == self@,
    {
        &self.dir
    }

    /// A second handle on the same directory.
    pub fn duplicate(&self) -> (root: ProjectRoot)
        ensures
            root@ == self@,
    {
        ProjectRoot { dir: copy_bytes(&self.dir) }
    }
}

/// The index of the last slash of `p`, or 0 where it has none.
pub open spec fn last_slash(p: Seq<u8>) -> int
    decreases p.len(),
{
    if p.len() == 0 {
        0
    } else if p.last() == SLASH {
        p.len() - 1
    } else {
        last_slash(p.drop_last())
    }
}

/// The directory that holds `p`: `p` up to its last slash.
pub open spec fn parent(p: Seq<u8>) -> Seq<u8> {
    p.take(last_slash(p))
}

/// One component applied to the path `at`. Empty components and `.` stay,
/// `..` goes up and fails at the top, a name goes down.
pub open spec fn enter(at: Seq<u8>, part: Seq<u8>) -> Option<Seq<u8>> {
    if part.len() == 0 || part == seq![DOT] {
        Some(at)
    } else if part == seq![DOT, DOT] {
        if at.len() == 0 {
            None
        } else {
            Some(parent(at))
        }
    } else {
        Some(at.push(SLASH) + part)
    }
}

/// The components applied in turn, starting from `at`.
pub open spec fn walk(at: Seq<u8>, parts: Seq<Seq<u8>>) -> Option<Seq<u8>>
    decreases parts.len(),
{
    if parts.len() == 0 {
        Some(at)
    } else {
        match walk(at, parts.drop_last()) {
            Some(p) => enter(p, parts.last()),
            None => None,
        }
    }
}

/// Whether `p` lies strictly below the directory `root`.
pub open spec fn inside(p: Seq<u8>, root: Seq<u8>) -> bool {
    p.len() > root.len() && p.take(root.len() as int) == root && p[root.len() as int] == SLASH
}

/// Whether a reference is rooted: it starts with a slash.
pub open spec fn is_rooted(reference: Seq<u8>) -> bool {
    reference.len() > 0 && reference[0] == SLASH
}

/// The module that `reference` names when it is written in the module
/// `base`. A rooted reference starts at `root`, any other at the directory of
/// `base`. There is no such module where a `..` climbs above the top or
/// where the path reached does not lie below `root`.
pub open spec fn resolved(base: Seq<u8>, reference: Seq<u8>, root: Seq<u8>) -> Option<Seq<u8>> {
    let start = if is_rooted(reference) {
        root
    } else {
        parent(base)
    };
    match walk(start, split(reference, SLASH)) {
        Some(p) => if inside(p, root) {
            Some(p)
        } else {
            None
        },
        None => None,
    }
}

/// A walk that has failed stays failed when more components follow.
pub proof fn lemma_walk_stays_failed(at: Seq<u8>, parts: Seq<Seq<u8>>, n: int)
    requires
        0 <= n <= parts.len(),
        walk(at, parts.take(n)) is None,
    ensures
        walk(at, parts) is None,
    decreases parts.len() - n,
{
    if n < parts.len() {
        assert(parts.take(n + 1).drop_last() =~= parts.take(n));
        lemma_walk_stays_failed(at, parts, n + 1);
    } else {
        assert(parts.take(n) =~= parts);
    }
}

/// `p` cut back to the directory that holds it.
fn cut_to_parent(p: &mut Vec<u8>)
    ensures
        final(p)@ == parent(old(p)@),
{
    let mut n: usize = p.len();
    assert(p@.take(n as int) =~= p@);
    while n > 0 && p[n - 1] != SLASH
        invariant
            n <= p.len(),
            last_slash(p@) == last_slash(p@.take(n as int)),
        decreases n,
    {
        assert(p@.take(n as int).drop_last() =~= p@.take(n - 1));
        n -= 1;
    }
    if n > 0 {
        n -= 1;
    }
    p.truncate(n);
}

/// Whether `part` is the component `.`.
fn is_dot(part: &Vec<u8>) -> (r: bool)
    ensures
        r == (part@ == seq![DOT]),
{
    let r = part.len() == 1 && part[0] == DOT;
    assert(r ==> part@ =~= seq![DOT]);
    r
}

/// Whether `part` is the component `..`.
fn is_dot_dot(part: &Vec<u8>) -> (r: bool)
    ensures
        r == (part@ == seq![DOT, DOT]),
{
    let r = part.len() == 2 && part[0] == DOT && part[1] == DOT;
    assert(r ==> part@ =~= seq![DOT, DOT]);
    r
}

/// Whether `p` lies strictly below `root`.
fn lies_inside(p: &Vec<u8>, root: &Vec<u8>) -> (r: bool)
    ensures
        r == inside(p@, root@),
{
    if p.len() <= root.len() {
        return false;
    }
    let mut i: usize = 0;
    while i < root.len()
        invariant
            i <= root.len() < p.len(),
            p@.take(i as int) == root@.take(i as int),
        decreases root.len() - i,
    {
        if p[i] != root[i] {
            assert(p@.take(root.len() as int)[i as int] != root@[i as int]);
            return false;
        }
        assert(p@.take(i + 1) =~= p@.take(i as int).push(p@[i as int]));
        assert(root@.take(i + 1) =~= root@.take(i as int).push(root@[i as int]));
        i += 1;
    }
    assert(root@.take(root.len() as int) =~= root@);
    p[root.len()] == SLASH
}

/// Whether a piece between two slashes is a step of its own: neither empty
/// nor `.`. A doubled slash and a `.` on the way change nothing.
pub open spec fn is_step(piece: Seq<u8>) -> bool {
    piece.len() > 0 && piece != seq![DOT]
}

/// The pieces that are steps, in order.
pub open spec fn steps(pieces: Seq<Seq<u8>>) -> Seq<Seq<u8>>
    decreases pieces.len(),
{
    if pieces.len() == 0 {
        Seq::empty()
    } else if is_step(pieces.last()) {
        steps(pieces.drop_last()).push(pieces.last())
    } else {
        steps(pieces.drop_last())
    }
}

/// The component that stands for the root in front of a rooted path. No
/// step is equal to it, since a step holds no slash.
pub open spec fn root_mark() -> Seq<u8> {
    seq![SLASH]
}

/// The component that stands for `.` at the very start of a path. No step
/// is equal to it.
pub open spec fn here_mark() -> Seq<u8> {
    seq![DOT]
}

/// The components of a path as the standard library counts them: the root
/// where the path starts with a slash; else `.` where the path starts with
/// it; then every step. Doubled slashes, a slash at the end and any other
/// `.` do not count. `..` is a step like a name.
pub open spec fn components_of(path: Seq<u8>) -> Seq<Seq<u8>> {
    let pieces = split(path, SLASH);
    let head = if is_rooted(path) {
        seq![root_mark()]
    } else if pieces[0] == here_mark() {
        seq![here_mark()]
    } else {
        Seq::empty()
    };
    head + steps(pieces)
}

/// Whether `lead` is the start of `whole`.
pub open spec fn is_lead(lead: Seq<Seq<u8>>, whole: Seq<Seq<u8>>) -> bool {
    lead.len() <= whole.len() && forall|i: int| 0 <= i < lead.len() ==> lead[i] == whole[i]
}

/// Whether `path` is the directory `dir` or lies below it, component by
/// component.
pub open spec fn is_within(path: Seq<u8>, dir: Seq<u8>) -> bool {
    is_lead(components_of(dir), components_of(path))
}

/// The components of `path`.
pub fn components(path: &Vec<u8>) -> (list: Vec<Vec<u8>>)
    ensures
        views(list@) == components_of(path@),
{
    let pieces = split_bytes(path, SLASH);
    let ghost all = views(pieces@);
    let mut list: Vec<Vec<u8>> = Vec::new();
    if path.len() > 0 && path[0] == SLASH {
        let mark: Vec<u8> = vec![SLASH];
        assert(mark@ =~= root_mark());
        list.push(mark);
    } else if is_dot(&pieces[0]) {
        let mark: Vec<u8> = vec![DOT];
        assert(mark@ =~= here_mark());
        list.push(mark);
    }
    let ghost head = views(list@);
    assert(head =~= if is_rooted(path@) {
        seq![root_mark()]
    } else if all[0] == here_mark() {
        seq![here_mark()]
    } else {
        Seq::empty()
    });
    let mut i: usize = 0;
    assert(views(list@) =~= head + steps(all.take(0)));
    while i < pieces.len()
        invariant
            i <= pieces.len(),
            all == views(pieces@),
            views(list@) == head + steps(all.take(i as int)),
        decreases pieces.len() - i,
    {
        let piece = &pieces[i];
        proof {
            assert(all.take(i + 1).drop_last() =~= all.take(i as int));
            assert(all.take(i + 1).last() == piece@);
        }
        if piece.len() > 0 && !is_dot(piece) {
            let ghost before = views(list@);
            list.push(copy_bytes(piece));
            assert(views(list@) =~= before.push(piece@));
            assert(views(list@) =~= head + steps(all.take(i + 1)));
        }
        i += 1;
    }
    assert(all.take(pieces.len() as int) =~= all);
    list
}

/// Whether `path` is the directory `dir` or lies below it. Both are taken
/// by their components, so it does not matter how either is written.
pub fn is_at_or_below(path: &Vec<u8>, dir: &Vec<u8>) -> (r: bool)
    ensures
        r == is_within(path@, dir@),
{
    let whole = components(path);
    let lead = components(dir);
    if lead.len() > whole.len() {
        return false;
    }
    let mut i: usize = 0;
    while i < lead.len()
        invariant
            i <= lead.len() <= whole.len(),
            views(lead@) == components_of(dir@),
            views(whole@) == components_of(path@),
            forall|x: int| 0 <= x < i ==> views(lead@)[x] == views(whole@)[x],
        decreases lead.len() - i,
    {
        if !same_bytes(&lead[i], &whole[i]) {
            assert(views(lead@)[i as int] != views(whole@)[i as int]);
            return false;
        }
        i += 1;
    }
    true
}

/// Resolves `reference`, written in the module `base`, to the module it
/// names, or to `None` where it names none below `root`.
pub fn resolve(base: &ModuleId, reference: &Vec<u8>, root: &ProjectRoot) -> (r: Option<ModuleId>)
    ensures
        match r {
            Some(id) => resolved(base@, reference@, root@) == Some(id@),
            None => resolved(base@, reference@, root@) is None,
        },
{
    let parts = split_bytes(reference, SLASH);
    let mut at: Vec<u8>;
    if reference.len() > 0 && reference[0] == SLASH {
        at = copy_bytes(&root.dir);
    } else {
        at = copy_bytes(&base.path);
        cut_to_parent(&mut at);
    }
    let ghost start = at@;
    let ghost all = views(parts@);
    let mut i: usize = 0;
    while i < parts.len()
        invariant
            i <= parts.len(),
            all == views(parts@),
            all == split(reference@, SLASH),
            start == if is_rooted(reference@) {
                root@
            } else {
                parent(base@)
            },
            walk(start, all.take(i as int)) == Some(at@),
        decreases parts.len() - i,
    {
        let part = &parts[i];
        proof {
            assert(all.take(i + 1).drop_last() =~= all.take(i as int));
            assert(all.take(i + 1).last() == part@);
        }
        if part.len() == 0 || is_dot(part) {
        } else if is_dot_dot(part) {
            if at.len() == 0 {
                proof {
                    lemma_walk_stays_failed(start, all, i + 1);
                }
                return None;
            }
            cut_to_parent(&mut at);
        } else {
            at.push(SLASH);
            let mut k: usize = 0;
            let ghost stem = at@;
            while k < part.len()
                invariant
                    k <= part.len(),
                    at@ == stem + part@.take(k as int),
                decreases part.len() - k,
            {
                at.push(part[k]);
                assert(part@.take(k + 1) =~= part@.take(k as int).push(part@[k as int]));
                assert(at@ =~= stem + part@.take(k + 1));
                k += 1;
            }
            assert(part@.take(part.len() as int) =~= part@);
        }
        i += 1;
    }
    assert(all.take(parts.len() as int) =~= all);
    if lies_inside(&at, &root.dir) {
        Some(ModuleId { path: at })
    } else {
        None
    }
}

} // verus!
