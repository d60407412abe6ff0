//! The loader: a depth-first walk over the imports that is driven from
//! outside. It names the module whose text it wants; the driver supplies the
//! text, or says that there is no such file, and gets back the next request,
//! the finished graph, or the error that ended the walk.

use crate::graph::{
    all_from, distinct_ids, entries_of, file_text, find_module, ids_of, import_target,
    imports_module, is_absent, is_chain, is_cited, is_closed, is_genuine, is_import_at,
    is_imported, is_link, is_missing, is_used, lemma_entries_push, lemma_entry_at, links_ok,
    modules_of, next_in, node_parsed, place_views, points_to, reaches, Files, LoadError,
    ModuleGraph, ModuleNode,
};
use crate::parse::{is_first_malformed, parse};
use crate::path::{
    place_view, resolve, resolved, Location, LocationView, ModuleId, ProjectRoot,
};
use crate::text::copy_bytes;
use vstd::prelude::*;

verus! {

/// Whether `frame` has its next import still open and that import names the
/// module `id`.
pub open spec fn is_waiting(frame: ModuleNode, root: Seq<u8>, id: Seq<u8>) -> bool {
    frame.targets@.len() < frame.module@.imports.len() && import_target(
        frame,
        frame.targets@.len() as int,
        root,
    ) == Some(id)
}

/// Where `frame` writes the reference of its next open import.
pub open spec fn waiting_place(frame: ModuleNode) -> LocationView {
    LocationView {
        module: frame.id@,
        line: frame.module@.imports[frame.targets@.len() as int].line,
        column: frame.module@.imports[frame.targets@.len() as int].column,
    }
}

/// For each module of a path, where it writes the reference of its next
/// open import.
pub open spec fn places_of(path: Seq<ModuleNode>) -> Seq<LocationView> {
    Seq::new(path.len(), |a: int| waiting_place(path[a]))
}

/// Where `frame` writes the reference of its next open import.
fn waiting_at(frame: &ModuleNode) -> (place: Location)
    requires
        frame.targets@.len() < frame.module@.imports.len(),
    ensures
        place@ == waiting_place(*frame),
{
    let import = &frame.module.imports[frame.targets.len()];
    assert(import@ == frame.module@.imports[frame.targets@.len() as int]);
    Location { module: frame.id.duplicate(), line: import.line, column: import.column }
}

/// Whether module `a` of `path` waits for the module after it.
pub open spec fn hands_on(path: Seq<ModuleNode>, a: int, root: Seq<u8>) -> bool {
    is_waiting(path[a], root, path[a + 1].id@)
}

/// Whether every module of `path` is sound as far as it has got and waits
/// for the module after it.
pub open spec fn path_ok(done: Seq<ModuleNode>, path: Seq<ModuleNode>, root: Seq<u8>) -> bool {
    &&& forall|a: int| 0 <= a < path.len() ==> links_ok(done, #[trigger] path[a], root)
    &&& forall|a: int| 0 <= a < path.len() - 1 ==> #[trigger] hands_on(path, a, root)
}

/// Whether no module stands twice in `done` and `path` together.
pub open spec fn apart(done: Seq<ModuleNode>, path: Seq<ModuleNode>) -> bool {
    &&& distinct_ids(done)
    &&& distinct_ids(path)
    &&& forall|a: int| 0 <= a < path.len() ==> is_absent(done, (#[trigger] path[a]).id@)
}

/// Whether every finished module is a target of a later one or of one on
/// the path.
pub open spec fn in_use(done: Seq<ModuleNode>, path: Seq<ModuleNode>) -> bool {
    forall|j: int| 0 <= j < done.len() ==> #[trigger] is_imported(done, j) || is_used(path, 0, j)
}

/// Whether every module of `done` is complete.
pub open spec fn all_closed(done: Seq<ModuleNode>, root: Seq<u8>) -> bool {
    forall|i: int| 0 <= i < done.len() ==> #[trigger] is_closed(done, i, root)
}

/// What holds of the finished modules and the active path at every step.
pub open spec fn walk_ok(done: Seq<ModuleNode>, path: Seq<ModuleNode>, root: Seq<u8>) -> bool {
    &&& apart(done, path)
    &&& all_closed(done, root)
    &&& path_ok(done, path, root)
    &&& in_use(done, path)
}

/// The bytes of a text that may be missing.
pub open spec fn text_view(contents: Option<Vec<u8>>) -> Option<Seq<u8>> {
    match contents {
        Some(text) => Some(text@),
        None => None,
    }
}

/// A walk in progress.
pub struct Loader {
    root: ProjectRoot,
    origin: ModuleId,
    request: Vec<u8>,
    done: Vec<ModuleNode>,
    active: Vec<ModuleNode>,
    wanted: ModuleId,
}

/// Where a walk stands after a step.
pub enum Progress {
    /// The loader wants the text of one more module.
    Need(Loader),
    /// Every module is read.
    Finished(ModuleGraph),
    /// The walk has failed.
    Failed(LoadError),
}

impl Loader {
    /// The directory below which the modules lie.
    pub closed spec fn root(&self) -> Seq<u8> {
        self.root@
    }

    /// The file in which the entry module was asked for.
    pub closed spec fn origin(&self) -> Seq<u8> {
        self.origin@
    }

    /// The reference by which the entry module was asked for.
    pub closed spec fn request(&self) -> Seq<u8> {
        self.request@
    }

    /// The module whose text the loader wants next.
    pub closed spec fn wanted(&self) -> Seq<u8> {
        self.wanted@
    }

    /// The modules that the walk is done with, in the order in which it
    /// was done with them.
    pub closed spec fn finished(&self) -> Seq<ModuleNode> {
        self.done@
    }

    /// The active path: the modules from the entry module down to the one
    /// that imports the wanted module, each waiting for the next.
    pub closed spec fn path(&self) -> Seq<ModuleNode> {
        self.active@
    }

    /// The identity and text of every module read so far.
    pub open spec fn entries(&self) -> Set<(Seq<u8>, Seq<u8>)> {
        entries_of(self.finished()).union(entries_of(self.path()))
    }

    /// Whether the module `id` has been read.
    pub open spec fn has(&self, id: Seq<u8>) -> bool {
        exists|text: Seq<u8>| #[trigger] self.entries().contains((id, text))
    }

    /// What holds of a loader between steps: the walk is sound, the
    /// wanted module has not been read yet, and it is the one that the
    /// last module of the active path waits for, or the entry module where
    /// nothing has been read.
    pub open spec fn wf(&self) -> bool {
        &&& walk_ok(self.finished(), self.path(), self.root())
        &&& is_absent(self.finished(), self.wanted())
        &&& is_absent(self.path(), self.wanted())
        &&& if self.path().len() == 0 {
            self.finished().len() == 0 && resolved(self.origin(), self.request(), self.root())
                == Some(self.wanted())
        } else {
            resolved(self.origin(), self.request(), self.root()) == Some(self.path()[0].id@)
                && is_waiting(self.path().last(), self.root(), self.wanted())
        }
    }

    /// The wanted module has not been read.
    pub proof fn lemma_wanted_is_new(&self)
        requires
            self.wf(),
        ensures
            !self.has(self.wanted()),
    {
    }

    /// The module whose text the loader wants next.
    pub fn wanted_module(&self) -> (id: &ModuleId)
        ensures
            id@ == self.wanted(),
    {
        &self.wanted
    }

    /// Starts the walk for the module that `request` names in the file
    /// `origin`.
    pub fn start(root: ProjectRoot, origin: ModuleId, request: Vec<u8>) -> (r: Progress)
        ensures
            match r {
                Progress::Need(loader) => {
                    &&& loader.wf()
                    &&& loader.root() == root@
                    &&& loader.origin() == origin@
                    &&& loader.request() == request@
                    &&& loader.entries() == Set::<(Seq<u8>, Seq<u8>)>::empty()
                    &&& resolved(origin@, request@, root@) == Some(loader.wanted())
                },
                Progress::Finished(_) => false,
                Progress::Failed(error) => {
                    &&& resolved(origin@, request@, root@) is None
                    &&& forall|files: Files| #[trigger]
                        is_genuine(files, root@, origin@, request@, error)
                },
            },
    {
        match resolve(&origin, &request, &root) {
            Some(wanted) => {
                let loader = Loader {
                    root,
                    origin,
                    request,
                    done: Vec::new(),
                    active: Vec::new(),
                    wanted,
                };
                assert(loader.entries() =~= Set::<(Seq<u8>, Seq<u8>)>::empty());
                Progress::Need(loader)
            },
            None => Progress::Failed(
                LoadError::UnresolvedPath { importer: origin, reference: request, at: None },
            ),
        }
    }

    /// Takes the text of the wanted module, or `None` where there is no
    /// such file, and goes on with the walk until it needs the next text,
    /// has finished or has failed.
    ///
    /// A failure is a true finding about every set of files that all the
    /// texts supplied so far were read from.
    #[verifier::loop_isolation(false)]
    pub fn supply(self, contents: Option<Vec<u8>>) -> (r: Progress)
        requires
            self.wf(),
        ensures
            contents is None ==> r is Failed,
            match r {
                Progress::Need(next) => {
                    &&& next.wf()
                    &&& next.root() == self.root()
                    &&& next.origin() == self.origin()
                    &&& next.request() == self.request()
                    &&& contents matches Some(text) && next.entries() == self.entries().insert(
                        (self.wanted(), text@),
                    )
                },
                Progress::Finished(graph) => {
                    &&& graph.wf()
                    &&& graph.root() == self.root()
                    &&& resolved(self.origin(), self.request(), self.root()) == Some(graph.entry())
                    &&& contents matches Some(text) && entries_of(graph.nodes())
                        == self.entries().insert((self.wanted(), text@))
                },
                Progress::Failed(error) => forall|files: Files|
                    all_from(self.entries(), files) && file_text(files, self.wanted()) == text_view(
                        contents,
                    ) ==> #[trigger] is_genuine(
                        files,
                        self.root(),
                        self.origin(),
                        self.request(),
                        error,
                    ),
            },
    {
        let ghost known = self.entries();
        let ghost given = text_view(contents);
        let Loader { root, origin, request, mut done, mut active, wanted } = self;
        let text = match contents {
            Some(text) => text,
            None => {
                if active.len() == 0 {
                    return Progress::Failed(
                        LoadError::UnresolvedPath { importer: origin, reference: request, at: None },
                    );
                }
                let last = &active[active.len() - 1];
                assert(links_ok(done@, *last, root@));
                let error = LoadError::UnresolvedPath {
                    importer: last.id.duplicate(),
                    reference: copy_bytes(&last.module.imports[last.targets.len()].from),
                    at: Some(waiting_at(last)),
                };
                proof {
                    assert forall|files: Files|
                        all_from(known, files) && file_text(files, wanted@)
                            == given implies #[trigger] is_genuine(
                        files,
                        root@,
                        origin@,
                        request@,
                        error,
                    ) by {
                        lemma_all_from_part(entries_of(active@), known, files);
                        lemma_dead_end(files, root@, origin@, request@, done@, active@, error);
                    }
                }
                return Progress::Failed(error);
            },
        };
        let module = match parse(&text) {
            Ok(module) => module,
            Err(e) => {
                let error = LoadError::MalformedDirective {
                    module: wanted,
                    line: e.line,
                    column: e.column,
                };
                proof {
                    assert forall|files: Files|
                        all_from(known, files) && file_text(files, wanted@)
                            == given implies #[trigger] is_genuine(
                        files,
                        root@,
                        origin@,
                        request@,
                        error,
                    ) by {
                        lemma_all_from_part(entries_of(active@), known, files);
                        lemma_bad_module(
                            files,
                            root@,
                            origin@,
                            request@,
                            done@,
                            active@,
                            wanted@,
                            error,
                        );
                    }
                }
                return Progress::Failed(error);
            },
        };
        let mut cur = ModuleNode { id: wanted, source: text, module, targets: Vec::new() };
        let ghost fresh = (cur.id@, cur.source@);
        proof {
            lemma_enter(done@, active@, cur, root@);
        }
        loop
            invariant
                walk_ok(done@, active@.push(cur), root@),
                resolved(origin@, request@, root@) == Some(active@.push(cur)[0].id@),
                entries_of(done@).union(entries_of(active@)).insert((cur.id@, cur.source@))
                    == known.insert(fresh),
            decreases active.len(), cur.module.imports.len() - cur.targets.len(),
        {
            let ghost path = active@.push(cur);
            assert(links_ok(done@, path[active@.len() as int], root@));
            if cur.targets.len() == cur.module.imports.len() {
                let ghost retired = cur;
                let ghost finished = done@;
                let ghost waiting = active@;
                done.push(cur);
                let index = done.len() - 1;
                proof {
                    lemma_entries_push(finished, retired);
                }
                match active.pop() {
                    None => {
                        proof {
                            assert(waiting.push(retired) =~= Seq::<ModuleNode>::empty().push(retired));
                            lemma_complete(finished, retired, root@);
                            assert(entries_of(waiting) =~= Set::<(Seq<u8>, Seq<u8>)>::empty());
                            assert(entries_of(done@) =~= known.insert(fresh));
                        }
                        let graph = ModuleGraph::assemble(root, done);
                        return Progress::Finished(graph);
                    },
                    Some(parent) => {
                        let ghost below = parent;
                        cur = parent;
                        cur.targets.push(index);
                        proof {
                            assert(waiting.last() == below);
                            lemma_retire(finished, waiting, retired, cur, root@);
                            assert(waiting =~= active@.push(below));
                            lemma_entries_push(active@, below);
                            assert(entries_of(done@).union(entries_of(active@)).insert(
                                (cur.id@, cur.source@),
                            ) =~= known.insert(fresh));
                            assert(active@.push(cur)[0].id@ == waiting.push(retired)[0].id@);
                        }
                    },
                }
            } else {
                let at = cur.targets.len();
                let found = resolve(&cur.id, &cur.module.imports[at].from, &root);
                let target = match found {
                    Some(target) => target,
                    None => {
                        let error = LoadError::UnresolvedPath {
                            importer: cur.id.duplicate(),
                            reference: copy_bytes(&cur.module.imports[at].from),
                            at: Some(waiting_at(&cur)),
                        };
                        proof {
                            lemma_entries_push(active@, cur);
                            assert forall|files: Files|
                                all_from(known, files) && file_text(files, fresh.0)
                                    == given implies #[trigger] is_genuine(
                                files,
                                root@,
                                origin@,
                                request@,
                                error,
                            ) by {
                                lemma_all_from_part(entries_of(path), known.insert(fresh), files);
                                lemma_dead_end(files, root@, origin@, request@, done@, path, error);
                            }
                        }
                        return Progress::Failed(error);
                    },
                };
                assert(is_waiting(cur, root@, target@));
                match find_module(&done, &target) {
                    Some(index) => {
                        let ghost before = cur;
                        cur.targets.push(index);
                        proof {
                            lemma_record(done@, active@, before, cur, root@, index as int);
                        }
                    },
                    None => {
                        let back = if cur.id.same(&target) {
                            Some(active.len())
                        } else {
                            find_module(&active, &target)
                        };
                        match back {
                            Some(from) => {
                                let mut cycle: Vec<Location> = Vec::new();
                                let mut a: usize = from;
                                proof {
                                    assert forall|x: int| 0 <= x < active@.len() implies (
                                    #[trigger] active@[x]).targets@.len()
                                        < active@[x].module@.imports.len() by {
                                        assert(hands_on(path, x, root@));
                                    }
                                }
                                assert(place_views(cycle@) =~= places_of(active@).subrange(
                                    from as int,
                                    a as int,
                                ));
                                while a < active.len()
                                    invariant
                                        from <= a <= active.len(),
                                        forall|x: int|
                                            0 <= x < active@.len() ==> (
                                            #[trigger] active@[x]).targets@.len()
                                                < active@[x].module@.imports.len(),
                                        place_views(cycle@) == places_of(active@).subrange(
                                            from as int,
                                            a as int,
                                        ),
                                    decreases active.len() - a,
                                {
                                    let ghost so_far = place_views(cycle@);
                                    let place = waiting_at(&active[a]);
                                    cycle.push(place);
                                    assert(place_views(cycle@) =~= so_far.push(
                                        waiting_place(active@[a as int]),
                                    ));
                                    assert(place_views(cycle@) =~= places_of(active@).subrange(
                                        from as int,
                                        a + 1,
                                    ));
                                    a += 1;
                                }
                                let ghost so_far = place_views(cycle@);
                                let place = waiting_at(&cur);
                                cycle.push(place);
                                let error = LoadError::ImportCycle { cycle };
                                proof {
                                    assert(place_views(cycle@) =~= so_far.push(waiting_place(cur)));
                                    assert(place_views(cycle@) =~= places_of(path).skip(from as int));
                                    lemma_entries_push(active@, cur);
                                    assert forall|files: Files|
                                        all_from(known, files) && file_text(files, fresh.0)
                                            == given implies #[trigger] is_genuine(
                                        files,
                                        root@,
                                        origin@,
                                        request@,
                                        error,
                                    ) by {
                                        lemma_all_from_part(
                                            entries_of(path),
                                            known.insert(fresh),
                                            files,
                                        );
                                        lemma_cycle(
                                            files,
                                            root@,
                                            origin@,
                                            request@,
                                            done@,
                                            path,
                                            from as int,
                                            error,
                                        );
                                    }
                                }
                                return Progress::Failed(error);
                            },
                            None => {
                                proof {
                                    lemma_entries_push(active@, cur);
                                }
                                active.push(cur);
                                let next = Loader {
                                    root,
                                    origin,
                                    request,
                                    done,
                                    active,
                                    wanted: target,
                                };
                                assert(next.entries() =~= known.insert(fresh));
                                return Progress::Need(next);
                            },
                        }
                    },
                }
            }
        }
    }
}

/// Whether `next` is `node` with one more target, `index`.
pub open spec fn is_advanced(node: ModuleNode, next: ModuleNode, index: int) -> bool {
    &&& next.id == node.id
    &&& next.source == node.source
    &&& next.module == node.module
    &&& next.targets@.len() == node.targets@.len() + 1
    &&& forall|k: int|
        0 <= k < node.targets@.len() ==> #[trigger] next.targets@[k] == node.targets@[k]
    &&& next.targets@[node.targets@.len() as int] == index
}

/// What pointed to `j` still does after it got one more target.
proof fn lemma_still_points(node: ModuleNode, next: ModuleNode, index: int, j: int)
    requires
        is_advanced(node, next, index),
        points_to(node, j),
    ensures
        points_to(next, j),
{
    let k = choose|k: int| 0 <= k < node.targets@.len() && #[trigger] node.targets@[k] == j;
    assert(next.targets@[k] == j);
}

/// A module that was just read joins the path.
proof fn lemma_enter(done: Seq<ModuleNode>, active: Seq<ModuleNode>, cur: ModuleNode, root: Seq<u8>)
    requires
        walk_ok(done, active, root),
        is_absent(done, cur.id@),
        is_absent(active, cur.id@),
        node_parsed(cur),
        cur.targets@.len() == 0,
        active.len() > 0 ==> is_waiting(active.last(), root, cur.id@),
    ensures
        walk_ok(done, active.push(cur), root),
{
    let path = active.push(cur);
    assert forall|a: int| 0 <= a < path.len() - 1 implies #[trigger] hands_on(path, a, root) by {
        if a < active.len() - 1 {
            assert(hands_on(active, a, root));
        }
    }
    assert forall|a: int| 0 <= a < path.len() implies links_ok(done, #[trigger] path[a], root) by {
        if a < active.len() {
            assert(links_ok(done, active[a], root));
        }
    }
    assert forall|j: int| 0 <= j < done.len() implies #[trigger] is_imported(done, j) || is_used(
        path,
        0,
        j,
    ) by {
        if !is_imported(done, j) {
            let i = choose|i: int| 0 <= i < active.len() && 0 <= i && points_to(#[trigger] active[i], j);
            assert(points_to(path[i], j));
        }
    }
}

/// The last module of the path has found the target of its next import
/// among the finished modules.
proof fn lemma_record(
    done: Seq<ModuleNode>,
    active: Seq<ModuleNode>,
    cur: ModuleNode,
    next: ModuleNode,
    root: Seq<u8>,
    index: int,
)
    requires
        walk_ok(done, active.push(cur), root),
        0 <= index < done.len(),
        is_waiting(cur, root, done[index].id@),
        is_advanced(cur, next, index),
    ensures
        walk_ok(done, active.push(next), root),
{
    let path = active.push(cur);
    let after = active.push(next);
    assert forall|a: int| 0 <= a < after.len() implies links_ok(done, #[trigger] after[a], root) by {
        assert(links_ok(done, path[a], root));
    }
    assert forall|a: int| 0 <= a < after.len() - 1 implies #[trigger] hands_on(after, a, root) by {
        assert(hands_on(path, a, root));
    }
    assert forall|a: int, b: int| 0 <= a < b < after.len() implies (#[trigger] after[a]).id@ != (
    #[trigger] after[b]).id@ by {
        assert(path[a].id@ != path[b].id@);
    }
    assert forall|a: int| 0 <= a < after.len() implies is_absent(done, (#[trigger] after[a]).id@) by {
        assert(is_absent(done, path[a].id@));
    }
    assert forall|j: int| 0 <= j < done.len() implies #[trigger] is_imported(done, j) || is_used(
        after,
        0,
        j,
    ) by {
        if !is_imported(done, j) {
            let i = choose|i: int| 0 <= i < path.len() && 0 <= i && points_to(#[trigger] path[i], j);
            if i == active.len() {
                lemma_still_points(cur, next, index, j);
            }
            assert(points_to(after[i], j));
        }
    }
}

/// A finished module stays complete when more modules follow it.
proof fn lemma_closed_stays(done: Seq<ModuleNode>, more: Seq<ModuleNode>, i: int, root: Seq<u8>)
    requires
        0 <= i < done.len() <= more.len(),
        forall|t: int| 0 <= t < done.len() ==> more[t] == done[t],
        is_closed(done, i, root),
    ensures
        is_closed(more, i, root),
{
    assert(more.take(i) =~= done.take(i));
}

/// The last module of the path has all its targets: it joins the finished
/// modules, and the module before it on the path gets it as a target.
proof fn lemma_retire(
    done: Seq<ModuleNode>,
    active: Seq<ModuleNode>,
    cur: ModuleNode,
    next: ModuleNode,
    root: Seq<u8>,
)
    requires
        walk_ok(done, active.push(cur), root),
        active.len() >= 1,
        cur.targets@.len() == cur.module@.imports.len(),
        is_advanced(active.last(), next, done.len() as int),
    ensures
        walk_ok(done.push(cur), active.drop_last().push(next), root),
{
    let path = active.push(cur);
    let more = done.push(cur);
    let after = active.drop_last().push(next);
    let top = active.len() - 1;
    assert(path[top] == active.last());
    assert(path[top + 1] == cur);
    assert(hands_on(path, top, root));
    assert(is_absent(done, path[top + 1].id@));
    assert forall|i: int, j: int| 0 <= i < j < more.len() implies (#[trigger] more[i]).id@ != (
    #[trigger] more[j]).id@ by {
        if j < done.len() {
            assert(done[i].id@ != done[j].id@);
        }
    }
    assert forall|a: int, b: int| 0 <= a < b < after.len() implies (#[trigger] after[a]).id@ != (
    #[trigger] after[b]).id@ by {
        assert(path[a].id@ != path[b].id@);
    }
    assert forall|a: int| 0 <= a < after.len() implies is_absent(more, (#[trigger] after[a]).id@) by {
        assert(is_absent(done, path[a].id@));
        assert(path[a].id@ != path[top + 1].id@);
    }
    assert forall|i: int| 0 <= i < more.len() implies #[trigger] is_closed(more, i, root) by {
        if i < done.len() {
            assert(is_closed(done, i, root));
            lemma_closed_stays(done, more, i, root);
        } else {
            assert(links_ok(done, path[top + 1], root));
            assert(more.take(i) =~= done);
        }
    }
    assert forall|a: int| 0 <= a < after.len() implies links_ok(more, #[trigger] after[a], root) by {
        assert(links_ok(done, path[a], root));
    }
    assert forall|a: int| 0 <= a < after.len() - 1 implies #[trigger] hands_on(after, a, root) by {
        assert(hands_on(path, a, root));
    }
    lemma_retire_in_use(done, active, cur, next);
}

/// Part of [`lemma_retire`]: every finished module is still in use.
proof fn lemma_retire_in_use(
    done: Seq<ModuleNode>,
    active: Seq<ModuleNode>,
    cur: ModuleNode,
    next: ModuleNode,
)
    requires
        in_use(done, active.push(cur)),
        active.len() >= 1,
        is_advanced(active.last(), next, done.len() as int),
    ensures
        in_use(done.push(cur), active.drop_last().push(next)),
{
    let path = active.push(cur);
    let more = done.push(cur);
    let after = active.drop_last().push(next);
    let top = active.len() - 1;
    assert forall|j: int| 0 <= j < more.len() implies #[trigger] is_imported(more, j) || is_used(
        after,
        0,
        j,
    ) by {
        if j == done.len() {
            assert(next.targets@[active.last().targets@.len() as int] == j);
            assert(points_to(after[top], j));
        } else if is_imported(done, j) {
            let i = choose|i: int| j + 1 <= i < done.len() && 0 <= i && points_to(#[trigger] done[i], j);
            assert(points_to(more[i], j));
        } else {
            let i = choose|i: int| 0 <= i < path.len() && 0 <= i && points_to(#[trigger] path[i], j);
            if i == top + 1 {
                assert(points_to(more[done.len() as int], j));
            } else if i == top {
                lemma_still_points(active.last(), next, done.len() as int, j);
                assert(points_to(after[top], j));
            } else {
                assert(points_to(after[i], j));
            }
        }
    }
}

/// The entry module has all its targets: the walk is over and the finished
/// modules are a graph.
proof fn lemma_complete(done: Seq<ModuleNode>, cur: ModuleNode, root: Seq<u8>)
    requires
        walk_ok(done, Seq::<ModuleNode>::empty().push(cur), root),
        cur.targets@.len() == cur.module@.imports.len(),
    ensures
        distinct_ids(done.push(cur)),
        forall|i: int| 0 <= i < done.len() + 1 ==> is_closed(done.push(cur), i, root),
        forall|j: int| 0 <= j < done.len() ==> #[trigger] is_imported(done.push(cur), j),
{
    let path = Seq::<ModuleNode>::empty().push(cur);
    let more = done.push(cur);
    assert(path[0] == cur);
    assert(is_absent(done, path[0].id@));
    assert forall|i: int, j: int| 0 <= i < j < more.len() implies (#[trigger] more[i]).id@ != (
    #[trigger] more[j]).id@ by {
        if j < done.len() {
            assert(done[i].id@ != done[j].id@);
        }
    }
    assert forall|i: int| 0 <= i < done.len() + 1 implies is_closed(more, i, root) by {
        if i < done.len() {
            assert(is_closed(done, i, root));
            lemma_closed_stays(done, more, i, root);
        } else {
            assert(links_ok(done, path[0], root));
            assert(more.take(i) =~= done);
        }
    }
    assert forall|j: int| 0 <= j < done.len() implies #[trigger] is_imported(more, j) by {
        if is_imported(done, j) {
            let i = choose|i: int| j + 1 <= i < done.len() && 0 <= i && points_to(#[trigger] done[i], j);
            assert(points_to(more[i], j));
        } else {
            let i = choose|i: int| 0 <= i < path.len() && 0 <= i && points_to(#[trigger] path[i], j);
            assert(points_to(more[done.len() as int], j));
        }
    }
}

/// What is read from `files` stays so when only a part is looked at.
proof fn lemma_all_from_part(
    part: Set<(Seq<u8>, Seq<u8>)>,
    whole: Set<(Seq<u8>, Seq<u8>)>,
    files: Files,
)
    requires
        part.subset_of(whole),
        all_from(whole, files),
    ensures
        all_from(part, files),
{
    assert forall|e: (Seq<u8>, Seq<u8>)| #[trigger] part.contains(e) implies files.dom().contains(
        e.0,
    ) && files[e.0] == e.1 by {
        assert(whole.contains(e));
    }
}

/// A part of a chain is a chain.
proof fn lemma_subchain(files: Files, root: Seq<u8>, chain: Seq<Seq<u8>>, lo: int, hi: int)
    requires
        is_chain(files, root, chain),
        0 <= lo <= hi <= chain.len(),
    ensures
        is_chain(files, root, chain.subrange(lo, hi)),
{
    let part = chain.subrange(lo, hi);
    assert forall|t: int| 0 <= t < part.len() - 1 implies #[trigger] is_link(
        files,
        root,
        part,
        t,
    ) by {
        assert(is_link(files, root, chain, lo + t));
    }
}

/// Every module of a sound path is a file with the text read from it, and
/// the path is a chain of imports.
proof fn lemma_path_is_chain(
    files: Files,
    root: Seq<u8>,
    done: Seq<ModuleNode>,
    path: Seq<ModuleNode>,
)
    requires
        path_ok(done, path, root),
        all_from(entries_of(path), files),
    ensures
        is_chain(files, root, ids_of(path)),
        forall|a: int|
            0 <= a < path.len() ==> files.dom().contains((#[trigger] path[a]).id@)
                && files[path[a].id@] == path[a].source@,
{
    assert forall|a: int| 0 <= a < path.len() implies files.dom().contains(
        (#[trigger] path[a]).id@,
    ) && files[path[a].id@] == path[a].source@ by {
        lemma_entry_at(path, a);
    }
    let chain = ids_of(path);
    assert forall|t: int| 0 <= t < chain.len() - 1 implies #[trigger] is_link(
        files,
        root,
        chain,
        t,
    ) by {
        let frame = path[t];
        assert(links_ok(done, frame, root));
        assert(hands_on(path, t, root));
        let k = frame.targets@.len() as int;
        assert(resolved(chain[t], parsed_imports(files, chain[t])[k].from, root) == Some(
            chain[t + 1],
        ));
    }
}

/// The imports that the file `id` declares.
spec fn parsed_imports(files: Files, id: Seq<u8>) -> Seq<crate::directive::ImportView> {
    crate::parse::parsed(files[id]).imports
}

/// An import without a file, found in the last module of a sound path, is a
/// true finding.
proof fn lemma_dead_end(
    files: Files,
    root: Seq<u8>,
    origin: Seq<u8>,
    request: Seq<u8>,
    done: Seq<ModuleNode>,
    path: Seq<ModuleNode>,
    error: LoadError,
)
    requires
        path.len() >= 1,
        path_ok(done, path, root),
        all_from(entries_of(path), files),
        resolved(origin, request, root) == Some(path[0].id@),
        path.last().targets@.len() < path.last().module@.imports.len(),
        is_missing(files, import_target(path.last(), path.last().targets@.len() as int, root)),
        error matches LoadError::UnresolvedPath { importer, reference, at } && importer@
            == path.last().id@ && reference@ == path.last().module@.imports[path.last().targets@.len() as int].from
            && place_view(at) == Some(waiting_place(path.last())),
    ensures
        is_genuine(files, root, origin, request, error),
{
    lemma_path_is_chain(files, root, done, path);
    let chain = ids_of(path);
    assert(chain[0] == path[0].id@ && chain.last() == path.last().id@);
    assert(reaches(files, root, path[0].id@, path.last().id@));
    let last = path.last();
    assert(links_ok(done, last, root));
    let k = last.targets@.len() as int;
    assert(parsed_imports(files, last.id@)[k].from == last.module@.imports[k].from);
    assert(is_import_at(parsed_imports(files, last.id@)[k], waiting_place(last)));
}

/// A malformed directive in the module that a sound path waits for is a
/// true finding.
proof fn lemma_bad_module(
    files: Files,
    root: Seq<u8>,
    origin: Seq<u8>,
    request: Seq<u8>,
    done: Seq<ModuleNode>,
    path: Seq<ModuleNode>,
    wanted: Seq<u8>,
    error: LoadError,
)
    requires
        path_ok(done, path, root),
        all_from(entries_of(path), files),
        if path.len() == 0 {
            resolved(origin, request, root) == Some(wanted)
        } else {
            resolved(origin, request, root) == Some(path[0].id@) && is_waiting(
                path.last(),
                root,
                wanted,
            )
        },
        files.dom().contains(wanted),
        error matches LoadError::MalformedDirective { module, line, column } && module@ == wanted
            && is_first_malformed(files[wanted], line as int, column as int),
    ensures
        is_genuine(files, root, origin, request, error),
{
    lemma_path_is_chain(files, root, done, path);
    let chain = ids_of(path).push(wanted);
    assert forall|t: int| 0 <= t < chain.len() - 1 implies #[trigger] is_link(
        files,
        root,
        chain,
        t,
    ) by {
        if t < path.len() - 1 {
            assert(is_link(files, root, ids_of(path), t));
        } else {
            let last = path.last();
            assert(links_ok(done, last, root));
            let k = last.targets@.len() as int;
            assert(resolved(chain[t], parsed_imports(files, chain[t])[k].from, root) == Some(
                wanted,
            ));
        }
    }
    assert(is_chain(files, root, chain));
    assert(chain.last() == wanted);
    assert(reaches(files, root, chain[0], wanted));
}

/// An import that leads from the last module of a sound path back to module
/// `at` of the path closes a cycle.
proof fn lemma_cycle(
    files: Files,
    root: Seq<u8>,
    origin: Seq<u8>,
    request: Seq<u8>,
    done: Seq<ModuleNode>,
    path: Seq<ModuleNode>,
    at: int,
    error: LoadError,
)
    requires
        0 <= at < path.len(),
        path_ok(done, path, root),
        all_from(entries_of(path), files),
        resolved(origin, request, root) == Some(path[0].id@),
        is_waiting(path.last(), root, path[at].id@),
        error matches LoadError::ImportCycle { cycle } && place_views(cycle@) == places_of(
            path,
        ).skip(at),
    ensures
        is_genuine(files, root, origin, request, error),
{
    lemma_path_is_chain(files, root, done, path);
    let chain = ids_of(path);
    lemma_subchain(files, root, chain, 0, at + 1);
    lemma_subchain(files, root, chain, at, chain.len() as int);
    let lead = chain.subrange(0, at + 1);
    assert(lead[0] == path[0].id@ && lead.last() == path[at].id@);
    assert(reaches(files, root, path[0].id@, path[at].id@));
    assert(chain.skip(at) =~= chain.subrange(at, chain.len() as int));
    let last = path.last();
    assert(links_ok(done, last, root));
    let k = last.targets@.len() as int;
    assert(resolved(last.id@, parsed_imports(files, last.id@)[k].from, root) == Some(path[at].id@));
    assert(imports_module(files, root, last.id@, path[at].id@));
    match error {
        LoadError::ImportCycle { cycle } => {
            let ids = modules_of(cycle@);
            let places = place_views(cycle@);
            assert(places.len() == cycle@.len());
            assert(places.len() == path.len() - at);
            assert forall|t: int| 0 <= t < ids.len() implies ids[t] == #[trigger] chain.skip(at)[t] by {
                assert(places[t] == places_of(path).skip(at)[t]);
            }
            assert(ids =~= chain.skip(at));
            assert(ids[0] == cycle@[0].module@);
            assert(ids[ids.len() - 1] == cycle@[cycle@.len() - 1].module@);
            assert forall|t: int| 0 <= t < cycle@.len() implies #[trigger] is_cited(
                files,
                root,
                cycle@,
                t,
            ) by {
                let frame = path[at + t];
                assert(places[t] == places_of(path).skip(at)[t]);
                assert(cycle@[t]@ == waiting_place(frame));
                assert(links_ok(done, frame, root));
                let k = frame.targets@.len() as int;
                if t + 1 < cycle@.len() {
                    assert(hands_on(path, at + t, root));
                    assert(next_in(ids, t) == path[at + t + 1].id@);
                } else {
                    assert(next_in(ids, t) == path[at].id@);
                }
                assert(is_import_at(parsed_imports(files, frame.id@)[k], waiting_place(frame)));
                assert(resolved(frame.id@, parsed_imports(files, frame.id@)[k].from, root) == Some(
                    next_in(ids, t),
                ));
            }
        },
        _ => {},
    }
}

} // verus!
