//! What the search finds on a given file system, and the proof that the loader finds it.
//!
//! A [`Disk`] says how every request is answered. [`skill_file`] says what one skill file
//! gives, [`breadth_first`] in which order the directories under a root are visited, and
//! [`all_found`] what is found under all roots. None of these knows of the loader's stages.
use vstd::prelude::*;

verus! {

use crate::frontmatter::{checked_fields, yaml_source, ParseFailure, SkillText};
use crate::loader::{
    next_dir, next_entry, next_root, role, skill_of, start, step, wanted, EntryRole, EntryView,
    Found, LoaderView, ReplyView, RequestView, ScanView, StageView, WalkView,
};
use crate::model::{child, PathView, RootView, SkillScope, SkillView};

/// How the outside answers: the file system, and the YAML parser.
pub struct Disk {
    pub canonical: spec_fn(PathView) -> Option<PathView>,
    pub is_dir: spec_fn(PathView) -> bool,
    pub entries: spec_fn(PathView) -> Option<Seq<EntryView>>,
    pub contents: spec_fn(PathView) -> Result<Seq<char>, Seq<char>>,
    pub yaml: spec_fn(Seq<char>) -> Result<SkillText, Seq<char>>,
}

/// The reply to a request. There is none to the last, so any will do.
pub open spec fn answer(disk: Disk, request: RequestView) -> ReplyView {
    match request {
        RequestView::Resolve(path) => ReplyView::Resolved((disk.canonical)(path)),
        RequestView::CheckDir(path) => ReplyView::IsDir((disk.is_dir)(path)),
        RequestView::ListDir(path) => ReplyView::Entries((disk.entries)(path)),
        RequestView::ReadFile(path) => ReplyView::Contents((disk.contents)(path)),
        RequestView::ParseYaml(yaml) => ReplyView::Parsed((disk.yaml)(yaml)),
        RequestView::Finished => ReplyView::IsDir(false),
    }
}

/// The loader after `n` requests that were answered.
pub open spec fn after(disk: Disk, loader: LoaderView, n: nat) -> LoaderView
    decreases n,
{
    if n == 0 {
        loader
    } else {
        after(disk, step(loader, answer(disk, wanted(loader))), (n - 1) as nat)
    }
}

/// What the skill file at this path gives.
pub open spec fn skill_file(disk: Disk, scope: SkillScope, file: PathView) -> Result<
    SkillView,
    ParseFailure,
> {
    match (disk.contents)(file) {
        Err(reason) => Err(ParseFailure::Read(reason)),
        Ok(text) => match yaml_source(text) {
            None => Err(ParseFailure::MissingFrontmatter),
            Some(yaml) => match (disk.yaml)(yaml) {
                Err(reason) => Err(ParseFailure::InvalidYaml(reason)),
                Ok(parsed) => match checked_fields(parsed) {
                    Err(failure) => Err(failure),
                    Ok(fields) => Ok(skill_of(fields, scope, file, (disk.canonical)(file))),
                },
            },
        },
    }
}

/// What is found first, followed by what is found next.
pub open spec fn plus(first: Found, next: Found) -> Found {
    Found { skills: first.skills + next.skills, errors: first.errors + next.errors }
}

/// What the skill file at this path adds to what is found.
pub open spec fn found_at(disk: Disk, scope: SkillScope, file: PathView) -> Found {
    match skill_file(disk, scope, file) {
        Ok(skill) => Found::nothing().with_skill(skill),
        Err(failure) => Found::nothing().with_failure(scope, file, failure),
    }
}

/// What is found among the entries of a directory.
pub open spec fn found_among(
    disk: Disk,
    scope: SkillScope,
    dir: PathView,
    entries: Seq<EntryView>,
) -> Found
    decreases entries.len(),
{
    if entries.len() == 0 {
        Found::nothing()
    } else {
        let rest = found_among(disk, scope, dir, entries.drop_first());
        if role(entries[0]) is SkillFile {
            plus(found_at(disk, scope, child(dir, entries[0].name->0)), rest)
        } else {
            rest
        }
    }
}

/// The subdirectories among the entries of a directory that are searched too.
pub open spec fn subdirs_among(dir: PathView, entries: Seq<EntryView>) -> Seq<PathView>
    decreases entries.len(),
{
    if entries.len() == 0 {
        seq![]
    } else {
        let rest = subdirs_among(dir, entries.drop_first());
        if role(entries[0]) is Subdir {
            seq![child(dir, entries[0].name->0)] + rest
        } else {
            rest
        }
    }
}

/// The entries of a directory; none if it cannot be read.
pub open spec fn listing(disk: Disk, dir: PathView) -> Seq<EntryView> {
    match (disk.entries)(dir) {
        Some(entries) => entries,
        None => seq![],
    }
}

/// Whether `dirs` are the directories that a walk visits which begins with those in `queue`:
/// each time the one that has waited longest, whose subdirectories then wait in turn.
pub open spec fn breadth_first(disk: Disk, queue: Seq<PathView>, dirs: Seq<PathView>) -> bool
    decreases dirs.len(),
{
    if dirs.len() == 0 {
        queue.len() == 0
    } else {
        &&& queue.len() > 0
        &&& queue[0] == dirs[0]
        &&& breadth_first(
            disk,
            queue.drop_first() + subdirs_among(dirs[0], listing(disk, dirs[0])),
            dirs.drop_first(),
        )
    }
}

/// What is found in these directories.
pub open spec fn found_in(disk: Disk, scope: SkillScope, dirs: Seq<PathView>) -> Found
    decreases dirs.len(),
{
    if dirs.len() == 0 {
        Found::nothing()
    } else {
        plus(
            found_among(disk, scope, dirs[0], listing(disk, dirs[0])),
            found_in(disk, scope, dirs.drop_first()),
        )
    }
}

/// Whether `dirs` are the directories to visit for a root: those of the breadth-first walk from
/// its canonical path, or none if it has no such path or is no directory.
pub open spec fn visits(disk: Disk, root: RootView, dirs: Seq<PathView>) -> bool {
    match (disk.canonical)(root.path) {
        Some(path) => if (disk.is_dir)(path) {
            breadth_first(disk, seq![path], dirs)
        } else {
            dirs.len() == 0
        },
        None => dirs.len() == 0,
    }
}

/// Whether each of `walks` has the directories to visit for the root at its place.
pub open spec fn visits_all(
    disk: Disk,
    roots: Seq<RootView>,
    walks: Seq<Seq<PathView>>,
) -> bool {
    &&& walks.len() == roots.len()
    &&& forall|i: int| 0 <= i < roots.len() ==> visits(disk, #[trigger] roots[i], walks[i])
}

/// What is found under all roots.
pub open spec fn all_found(
    disk: Disk,
    roots: Seq<RootView>,
    walks: Seq<Seq<PathView>>,
) -> Found
    decreases roots.len(),
{
    if roots.len() == 0 {
        Found::nothing()
    } else {
        plus(
            found_in(disk, roots[0].scope, walks[0]),
            all_found(disk, roots.drop_first(), walks.drop_first()),
        )
    }
}

/// Whether the loader comes from one state to the other.
spec fn reaches(disk: Disk, from: LoaderView, to: LoaderView) -> bool {
    exists|n: nat| #[trigger] after(disk, from, n) == to
}

proof fn lemma_after_add(disk: Disk, loader: LoaderView, m: nat, n: nat)
    ensures
        after(disk, after(disk, loader, m), n) == after(disk, loader, m + n),
    decreases m,
{
    if m > 0 {
        lemma_after_add(disk, step(loader, answer(disk, wanted(loader))), (m - 1) as nat, n);
    }
}

proof fn lemma_reaches_transitive(disk: Disk, a: LoaderView, b: LoaderView, c: LoaderView)
    requires
        reaches(disk, a, b),
        reaches(disk, b, c),
    ensures
        reaches(disk, a, c),
{
    let m = choose|m: nat| #[trigger] after(disk, a, m) == b;
    let n = choose|n: nat| #[trigger] after(disk, b, n) == c;
    lemma_after_add(disk, a, m, n);
    assert(after(disk, a, m + n) == c);
}

proof fn lemma_reaches_self(disk: Disk, a: LoaderView)
    ensures
        reaches(disk, a, a),
{
    assert(after(disk, a, 0) == a);
}

proof fn lemma_reaches_next(disk: Disk, a: LoaderView)
    ensures
        reaches(disk, a, step(a, answer(disk, wanted(a)))),
{
    let b = step(a, answer(disk, wanted(a)));
    assert(after(disk, b, 0) == b);
    assert(after(disk, a, 1) == b);
}

/// Once the loader is done it stays as it is.
proof fn lemma_done_stays(disk: Disk, loader: LoaderView, n: nat, m: nat)
    requires
        after(disk, loader, n).stage is Done,
        n <= m,
    ensures
        after(disk, loader, m) == after(disk, loader, n),
    decreases m,
{
    if m > n {
        lemma_done_stays(disk, loader, n, (m - 1) as nat);
        let last = after(disk, loader, (m - 1) as nat);
        lemma_after_add(disk, loader, (m - 1) as nat, 1);
        assert(after(disk, last, 1) == after(
            disk,
            step(last, answer(disk, wanted(last))),
            0,
        ));
    }
}

/// A skill file is read, and the search goes on behind it.
proof fn lemma_file(
    disk: Disk,
    file: PathView,
    scan: ScanView,
    roots: Seq<RootView>,
    found: Found,
)
    ensures
        reaches(
            disk,
            LoaderView { stage: StageView::Read { file, scan }, roots, found },
            next_entry(scan, roots, plus(found, found_at(disk, scan.walk.scope, file))),
        ),
{
    let scope = scan.walk.scope;
    let more = plus(found, found_at(disk, scope, file));
    let a = LoaderView { stage: StageView::Read { file, scan }, roots, found };
    let b = step(a, answer(disk, wanted(a)));
    lemma_reaches_next(disk, a);
    match skill_file(disk, scope, file) {
        Ok(skill) => {
            assert(more.skills =~= found.with_skill(skill).skills);
            assert(more.errors =~= found.errors);
        },
        Err(failure) => {
            assert(more.skills =~= found.skills);
            assert(more.errors =~= found.with_failure(scope, file, failure).errors);
        },
    }
    if b.stage is Parse {
        lemma_reaches_next(disk, b);
        let c = step(b, answer(disk, wanted(b)));
        lemma_reaches_transitive(disk, a, b, c);
        if c.stage is ResolveFile && skill_file(disk, scope, file) is Ok {
            lemma_reaches_next(disk, c);
            lemma_reaches_transitive(disk, a, c, step(c, answer(disk, wanted(c))));
        }
    }
}

/// What is found can be put together in any grouping, and nothing adds nothing.
pub proof fn lemma_plus(a: Found, b: Found, c: Found)
    ensures
        plus(plus(a, b), c) == plus(a, plus(b, c)),
        plus(a, Found::nothing()) == a,
        plus(Found::nothing(), a) == a,
{
    assert(plus(plus(a, b), c).skills =~= plus(a, plus(b, c)).skills);
    assert(plus(plus(a, b), c).errors =~= plus(a, plus(b, c)).errors);
    assert(plus(a, Found::nothing()).skills =~= a.skills);
    assert(plus(a, Found::nothing()).errors =~= a.errors);
    assert(plus(Found::nothing(), a).skills =~= a.skills);
    assert(plus(Found::nothing(), a).errors =~= a.errors);
}

/// The entries of a directory are looked at, and the search goes on with the next directory.
proof fn lemma_entries(disk: Disk, scan: ScanView, roots: Seq<RootView>, found: Found)
    ensures
        reaches(
            disk,
            next_entry(scan, roots, found),
            next_dir(
                WalkView {
                    scope: scan.walk.scope,
                    queue: scan.walk.queue + subdirs_among(scan.dir, scan.entries),
                },
                roots,
                plus(found, found_among(disk, scan.walk.scope, scan.dir, scan.entries)),
            ),
        ),
    decreases scan.entries.len(),
{
    let scope = scan.walk.scope;
    let queue = scan.walk.queue;
    let all = found_among(disk, scope, scan.dir, scan.entries);
    let subdirs = subdirs_among(scan.dir, scan.entries);
    if scan.entries.len() == 0 {
        lemma_plus(found, found, found);
        assert(queue + subdirs =~= queue);
        assert(WalkView { scope, queue: queue + subdirs } == scan.walk);
        lemma_reaches_self(disk, next_entry(scan, roots, found));
    } else {
        let entry = scan.entries[0];
        let rest = ScanView { entries: scan.entries.drop_first(), ..scan };
        match role(entry) {
            EntryRole::Skipped => {
                lemma_entries(disk, rest, roots, found);
            },
            EntryRole::Subdir => {
                let path = child(scan.dir, entry.name->0);
                let longer = ScanView {
                    walk: WalkView { scope, queue: queue.push(path) },
                    ..rest
                };
                lemma_entries(disk, longer, roots, found);
                assert(queue.push(path) + subdirs_among(scan.dir, rest.entries) =~= queue
                    + subdirs);
            },
            EntryRole::SkillFile => {
                let file = child(scan.dir, entry.name->0);
                let one = found_at(disk, scope, file);
                lemma_file(disk, file, rest, roots, found);
                lemma_entries(disk, rest, roots, plus(found, one));
                lemma_plus(found, one, found_among(disk, scope, scan.dir, rest.entries));
                lemma_reaches_transitive(
                    disk,
                    next_entry(scan, roots, found),
                    next_entry(rest, roots, plus(found, one)),
                    next_dir(
                        WalkView { scope, queue: queue + subdirs },
                        roots,
                        plus(found, all),
                    ),
                );
            },
        }
    }
}

/// One directory is listed, and the search goes on with the next.
proof fn lemma_dir(
    disk: Disk,
    scope: SkillScope,
    queue: Seq<PathView>,
    roots: Seq<RootView>,
    found: Found,
)
    requires
        queue.len() > 0,
    ensures
        reaches(
            disk,
            next_dir(WalkView { scope, queue }, roots, found),
            next_dir(
                WalkView {
                    scope,
                    queue: queue.drop_first() + subdirs_among(queue[0], listing(disk, queue[0])),
                },
                roots,
                plus(found, found_among(disk, scope, queue[0], listing(disk, queue[0]))),
            ),
        ),
{
    let dir = queue[0];
    let a = next_dir(WalkView { scope, queue }, roots, found);
    let b = step(a, answer(disk, wanted(a)));
    let walk = WalkView { scope, queue: queue.drop_first() };
    let scan = ScanView { dir, entries: listing(disk, dir), walk };
    lemma_reaches_next(disk, a);
    assert(b == next_entry(scan, roots, found));
    lemma_entries(disk, scan, roots, found);
    lemma_reaches_transitive(
        disk,
        a,
        b,
        next_dir(
            WalkView {
                scope,
                queue: queue.drop_first() + subdirs_among(dir, listing(disk, dir)),
            },
            roots,
            plus(found, found_among(disk, scope, dir, listing(disk, dir))),
        ),
    );
}

/// All directories under a root are visited, and the search goes on with the next root.
proof fn lemma_dirs(
    disk: Disk,
    scope: SkillScope,
    queue: Seq<PathView>,
    dirs: Seq<PathView>,
    roots: Seq<RootView>,
    found: Found,
)
    requires
        breadth_first(disk, queue, dirs),
    ensures
        reaches(
            disk,
            next_dir(WalkView { scope, queue }, roots, found),
            next_root(roots, plus(found, found_in(disk, scope, dirs))),
        ),
    decreases dirs.len(),
{
    let a = next_dir(WalkView { scope, queue }, roots, found);
    if dirs.len() == 0 {
        lemma_plus(found, found, found);
        lemma_reaches_self(disk, a);
    } else {
        let one = found_among(disk, scope, dirs[0], listing(disk, dirs[0]));
        let longer = queue.drop_first() + subdirs_among(dirs[0], listing(disk, dirs[0]));
        lemma_dir(disk, scope, queue, roots, found);
        lemma_dirs(disk, scope, longer, dirs.drop_first(), roots, plus(found, one));
        lemma_plus(found, one, found_in(disk, scope, dirs.drop_first()));
        lemma_reaches_transitive(
            disk,
            a,
            next_dir(WalkView { scope, queue: longer }, roots, plus(found, one)),
            next_root(roots, plus(found, found_in(disk, scope, dirs))),
        );
    }
}

/// One root is searched, and the search goes on with the next.
proof fn lemma_root(disk: Disk, roots: Seq<RootView>, dirs: Seq<PathView>, found: Found)
    requires
        roots.len() > 0,
        visits(disk, roots[0], dirs),
    ensures
        reaches(
            disk,
            next_root(roots, found),
            next_root(
                roots.drop_first(),
                plus(found, found_in(disk, roots[0].scope, dirs)),
            ),
        ),
{
    let root = roots[0];
    let rest = roots.drop_first();
    let a = next_root(roots, found);
    let b = step(a, answer(disk, wanted(a)));
    lemma_reaches_next(disk, a);
    lemma_plus(found, found, found);
    if (disk.canonical)(root.path) is Some {
        let path = (disk.canonical)(root.path)->0;
        let c = step(b, answer(disk, wanted(b)));
        lemma_reaches_next(disk, b);
        lemma_reaches_transitive(disk, a, b, c);
        if (disk.is_dir)(path) {
            lemma_dirs(disk, root.scope, seq![path], dirs, rest, found);
            lemma_reaches_transitive(
                disk,
                a,
                c,
                next_root(rest, plus(found, found_in(disk, root.scope, dirs))),
            );
        }
    }
}

/// All roots are searched.
proof fn lemma_roots(
    disk: Disk,
    roots: Seq<RootView>,
    walks: Seq<Seq<PathView>>,
    found: Found,
)
    requires
        visits_all(disk, roots, walks),
    ensures
        reaches(
            disk,
            next_root(roots, found),
            LoaderView {
                stage: StageView::Done,
                roots: seq![],
                found: plus(found, all_found(disk, roots, walks)),
            },
        ),
    decreases roots.len(),
{
    let end = LoaderView {
        stage: StageView::Done,
        roots: seq![],
        found: plus(found, all_found(disk, roots, walks)),
    };
    if roots.len() == 0 {
        lemma_plus(found, found, found);
        assert(roots =~= seq![]);
        lemma_reaches_self(disk, end);
    } else {
        let rest = roots.drop_first();
        let one = found_in(disk, roots[0].scope, walks[0]);
        assert(visits_all(disk, rest, walks.drop_first())) by {
            assert forall|i: int| 0 <= i < rest.len() implies visits(
                disk,
                #[trigger] rest[i],
                walks.drop_first()[i],
            ) by {
                assert(rest[i] == roots[i + 1]);
            }
        }
        lemma_root(disk, roots, walks[0], found);
        lemma_roots(disk, rest, walks.drop_first(), plus(found, one));
        lemma_plus(found, one, all_found(disk, rest, walks.drop_first()));
        lemma_reaches_transitive(
            disk,
            next_root(roots, found),
            next_root(rest, plus(found, one)),
            end,
        );
    }
}

/// The search comes to its end, wherever the directories under each root can all be visited,
/// and it has then found what is there, in the order in which it is visited.
pub proof fn law_search_finds_all(
    disk: Disk,
    roots: Seq<RootView>,
    walks: Seq<Seq<PathView>>,
) -> (n: nat)
    requires
        visits_all(disk, roots, walks),
    ensures
        after(disk, start(roots), n).stage is Done,
        after(disk, start(roots), n).found == all_found(disk, roots, walks),
{
    let nothing = Found::nothing();
    lemma_roots(disk, roots, walks, nothing);
    lemma_plus(all_found(disk, roots, walks), nothing, nothing);
    let end = LoaderView {
        stage: StageView::Done,
        roots: seq![],
        found: all_found(disk, roots, walks),
    };
    choose|n: nat| #[trigger] after(disk, start(roots), n) == end
}

/// A loader that reaches a state and comes to its end comes to its end from that state too.
proof fn lemma_end_from(disk: Disk, a: LoaderView, b: LoaderView, n: nat) -> (m: nat)
    requires
        reaches(disk, a, b),
        after(disk, a, n).stage is Done,
    ensures
        after(disk, b, m).stage is Done,
        m <= n,
{
    let k = choose|k: nat| #[trigger] after(disk, a, k) == b;
    if k <= n {
        lemma_after_add(disk, a, k, (n - k) as nat);
        (n - k) as nat
    } else {
        lemma_done_stays(disk, a, n, k);
        assert(after(disk, b, 0) == b);
        0
    }
}

/// A search that comes to its end has visited the directories under its root.
proof fn lemma_visited(
    disk: Disk,
    scope: SkillScope,
    queue: Seq<PathView>,
    roots: Seq<RootView>,
    found: Found,
    n: nat,
) -> (dirs: Seq<PathView>)
    requires
        after(disk, next_dir(WalkView { scope, queue }, roots, found), n).stage is Done,
    ensures
        breadth_first(disk, queue, dirs),
    decreases n,
{
    if queue.len() == 0 {
        seq![]
    } else {
        let dir = queue[0];
        let a = next_dir(WalkView { scope, queue }, roots, found);
        let b = step(a, answer(disk, wanted(a)));
        let scan = ScanView {
            dir,
            entries: listing(disk, dir),
            walk: WalkView { scope, queue: queue.drop_first() },
        };
        let longer = queue.drop_first() + subdirs_among(dir, listing(disk, dir));
        let more = plus(found, found_among(disk, scope, dir, listing(disk, dir)));
        assert(n > 0);
        assert(b == next_entry(scan, roots, found));
        assert(after(disk, b, (n - 1) as nat).stage is Done);
        lemma_entries(disk, scan, roots, found);
        let m = lemma_end_from(
            disk,
            b,
            next_dir(WalkView { scope, queue: longer }, roots, more),
            (n - 1) as nat,
        );
        let rest = lemma_visited(disk, scope, longer, roots, more, m);
        let dirs = seq![dir] + rest;
        assert(dirs.drop_first() =~= rest);
        dirs
    }
}

/// A search that comes to its end has visited the directories under all its roots.
proof fn lemma_visited_all(disk: Disk, roots: Seq<RootView>, found: Found, n: nat) -> (walks: Seq<
    Seq<PathView>,
>)
    requires
        after(disk, next_root(roots, found), n).stage is Done,
    ensures
        visits_all(disk, roots, walks),
    decreases roots.len(),
{
    if roots.len() == 0 {
        seq![]
    } else {
        let root = roots[0];
        let rest = roots.drop_first();
        let a = next_root(roots, found);
        let b = step(a, answer(disk, wanted(a)));
        assert(n > 0);
        assert(after(disk, b, (n - 1) as nat).stage is Done);
        let path = (disk.canonical)(root.path);
        let dirs = if path is Some && (disk.is_dir)(path->0) {
            let c = step(b, answer(disk, wanted(b)));
            assert(after(disk, c, (n - 2) as nat).stage is Done);
            lemma_visited(disk, root.scope, seq![path->0], rest, found, (n - 2) as nat)
        } else {
            seq![]
        };
        lemma_root(disk, roots, dirs, found);
        let more = plus(found, found_in(disk, root.scope, dirs));
        let m = lemma_end_from(disk, a, next_root(rest, more), n);
        let others = lemma_visited_all(disk, rest, more, m);
        let walks = seq![dirs] + others;
        assert forall|i: int| 0 <= i < roots.len() implies visits(
            disk,
            #[trigger] roots[i],
            walks[i],
        ) by {
            if i > 0 {
                assert(rest[i - 1] == roots[i]);
            }
        }
        walks
    }
}

/// A search that has come to its end has visited every directory under its roots, breadth
/// first, and has found what is there.
pub proof fn law_finished_search_is_complete(disk: Disk, roots: Seq<RootView>, n: nat) -> (walks:
    Seq<Seq<PathView>>)
    requires
        after(disk, start(roots), n).stage is Done,
    ensures
        visits_all(disk, roots, walks),
        after(disk, start(roots), n).found == all_found(disk, roots, walks),
{
    let walks = lemma_visited_all(disk, roots, Found::nothing(), n);
    let m = law_search_finds_all(disk, roots, walks);
    if m <= n {
        lemma_done_stays(disk, start(roots), m, n);
    } else {
        lemma_done_stays(disk, start(roots), n, m);
    }
    walks
}

/// The order in which the directories are visited follows from the disk.
pub proof fn law_walk_is_determined(
    disk: Disk,
    queue: Seq<PathView>,
    a: Seq<PathView>,
    b: Seq<PathView>,
)
    requires
        breadth_first(disk, queue, a),
        breadth_first(disk, queue, b),
    ensures
        a == b,
    decreases a.len(),
{
    if a.len() == 0 {
        assert(a =~= b);
    } else {
        let longer = queue.drop_first() + subdirs_among(a[0], listing(disk, a[0]));
        law_walk_is_determined(disk, longer, a.drop_first(), b.drop_first());
        assert(a =~= seq![a[0]] + a.drop_first());
        assert(b =~= seq![b[0]] + b.drop_first());
    }
}

} // verus!
