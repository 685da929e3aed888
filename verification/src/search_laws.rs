//! What holds of the search as a whole: of its roots, of the directories that it visits, and of
//! the skills and failures that come out of it.
use vstd::prelude::*;

verus! {

use vstd::utf8::{encode_utf8, encode_utf8_decode_utf8};

use crate::config::{
    layer_roots, stack_roots, ConfigLayerSource, LayerView, SYSTEM_CACHE_DIR_NAME,
};
use crate::disk::{
    after, all_found, breadth_first, found_among, found_at, found_in,
    law_finished_search_is_complete, law_walk_is_determined, lemma_plus, listing, plus,
    subdirs_among, visits, visits_all, Disk,
};
use crate::frontmatter::{
    checked_fields, single_line, SkillText, MAX_DESCRIPTION_LEN, MAX_NAME_LEN,
    MAX_SHORT_DESCRIPTION_LEN,
};
use crate::loader::{
    next_entry, role, skill_of, start, step, EntryType, EntryView, Found, LoaderView, ReplyView,
    ScanView, StageView, WalkView, SKILLS_FILENAME,
};
use crate::merge::{
    first_of_name, kept, lemma_first_exists, lemma_precedes_irreflexive,
    lemma_precedes_transitive, merged, precedes, rank, text_less,
};
use crate::model::{child, ErrorView, PathView, RootView, SkillScope, SkillView};
use crate::text_laws::law_single_line_is_stable;

// The roots.

/// Layers of higher precedence are searched before those of lower precedence.
pub proof fn law_higher_layers_come_first(lower: Seq<LayerView>, higher: Seq<LayerView>)
    ensures
        stack_roots(lower + higher) == stack_roots(higher) + stack_roots(lower),
    decreases higher.len(),
{
    if higher.len() == 0 {
        assert(lower + higher =~= lower);
        assert(stack_roots(higher) + stack_roots(lower) =~= stack_roots(lower));
    } else {
        law_higher_layers_come_first(lower, higher.drop_last());
        assert((lower + higher).drop_last() =~= lower + higher.drop_last());
        assert(stack_roots(lower + higher) =~= stack_roots(higher) + stack_roots(lower));
    }
}

/// The embedded skills are searched right after the user's own, in whose directory their cache
/// is.
pub proof fn law_system_cache_follows_user_skills(layers: Seq<LayerView>, i: int)
    requires
        0 <= i < stack_roots(layers).len(),
        stack_roots(layers)[i].scope == SkillScope::System,
    ensures
        i > 0,
        stack_roots(layers)[i - 1].scope == SkillScope::User,
        stack_roots(layers)[i].path == child(
            stack_roots(layers)[i - 1].path,
            SYSTEM_CACHE_DIR_NAME@,
        ),
    decreases layers.len(),
{
    let first = layer_roots(layers.last());
    let rest = stack_roots(layers.drop_last());
    if i >= first.len() {
        assert(stack_roots(layers)[i] == rest[i - first.len()]);
        law_system_cache_follows_user_skills(layers.drop_last(), i - first.len());
        assert(stack_roots(layers)[i - 1] == rest[i - first.len() - 1]);
    } else {
        assert(stack_roots(layers)[i] == first[i]);
        assert(i == 1);
        assert(stack_roots(layers)[0] == first[0]);
    }
}

/// Whether a layer of higher precedence may stand above one of lower precedence in the usual
/// order: the system's layers are lowest, then the user's, of which there is one, and those of
/// projects are highest.
pub open spec fn stands_above(higher: ConfigLayerSource, lower: ConfigLayerSource) -> bool {
    match lower {
        ConfigLayerSource::System => true,
        ConfigLayerSource::User => higher == ConfigLayerSource::Project,
        ConfigLayerSource::Project => higher == ConfigLayerSource::Project,
        _ => false,
    }
}

/// Whether the layers with roots, from the lowest precedence to the highest, are in the usual
/// order.
pub open spec fn in_usual_order(layers: Seq<LayerView>) -> bool {
    forall|i: int, j: int|
        0 <= i < j < layers.len() && layer_roots(#[trigger] layers[i]).len() > 0 && layer_roots(
            #[trigger] layers[j],
        ).len() > 0 ==> stands_above(layers[j].name, layers[i].name)
}

/// Whether roots of scopes with higher priority come first.
pub open spec fn scopes_in_order(roots: Seq<RootView>) -> bool {
    forall|i: int, j: int|
        0 <= i < j < roots.len() ==> rank((#[trigger] roots[i]).scope) <= rank(
            (#[trigger] roots[j]).scope,
        )
}

/// The layer that a root comes from, and its place there.
proof fn lemma_layer_of_root(layers: Seq<LayerView>, i: int) -> (at: (int, int))
    requires
        0 <= i < stack_roots(layers).len(),
    ensures
        0 <= at.0 < layers.len(),
        0 <= at.1 < layer_roots(layers[at.0]).len(),
        stack_roots(layers)[i] == layer_roots(layers[at.0])[at.1],
    decreases layers.len(),
{
    let first = layer_roots(layers.last());
    if i < first.len() {
        (layers.len() - 1, i)
    } else {
        lemma_layer_of_root(layers.drop_last(), i - first.len())
    }
}

/// Where the layers are in the usual order, the roots of scopes with higher priority are
/// searched first.
pub proof fn law_usual_layers_put_scopes_in_order(layers: Seq<LayerView>)
    requires
        in_usual_order(layers),
    ensures
        scopes_in_order(stack_roots(layers)),
    decreases layers.len(),
{
    if layers.len() > 0 {
        let top = layers.len() - 1;
        let first = layer_roots(layers[top]);
        let lower = layers.drop_last();
        let roots = stack_roots(layers);
        assert(in_usual_order(lower)) by {
            assert forall|i: int, j: int|
                0 <= i < j < lower.len() && layer_roots(#[trigger] lower[i]).len() > 0
                    && layer_roots(#[trigger] lower[j]).len() > 0 implies stands_above(
                lower[j].name,
                lower[i].name,
            ) by {
                assert(lower[i] == layers[i] && lower[j] == layers[j]);
            }
        }
        law_usual_layers_put_scopes_in_order(lower);
        assert forall|i: int, j: int| 0 <= i < j < roots.len() implies rank(
            (#[trigger] roots[i]).scope,
        ) <= rank((#[trigger] roots[j]).scope) by {
            if i >= first.len() {
                assert(roots[i] == stack_roots(lower)[i - first.len()]);
                assert(roots[j] == stack_roots(lower)[j - first.len()]);
            } else if j >= first.len() {
                assert(roots[j] == stack_roots(lower)[j - first.len()]);
                let at = lemma_layer_of_root(lower, j - first.len());
                assert(lower[at.0] == layers[at.0]);
                assert(stands_above(layers[top].name, layers[at.0].name));
                assert(roots[i] == first[i]);
            } else {
                assert(roots[i] == first[i]);
                assert(roots[j] == first[j]);
            }
        }
    }
}

// The skills that come out.

/// What becomes of the skills that were found is determined by them.
pub proof fn law_merge_is_determined(
    found: Seq<SkillView>,
    a: Seq<SkillView>,
    b: Seq<SkillView>,
)
    requires
        merged(found, a),
        merged(found, b),
    ensures
        a == b,
{
    lemma_merged_prefix(found, a, b, a.len() as int);
    lemma_merged_prefix(found, b, a, b.len() as int);
    assert(a =~= b);
}

/// The first `n` skills of one merged list stand at the same places in another.
proof fn lemma_merged_prefix(found: Seq<SkillView>, a: Seq<SkillView>, b: Seq<SkillView>, n: int)
    requires
        merged(found, a),
        merged(found, b),
        0 <= n <= a.len(),
    ensures
        n <= b.len(),
        forall|i: int| 0 <= i < n ==> a[i] == b[i],
    decreases n,
{
    if n > 0 {
        let k = n - 1;
        lemma_merged_prefix(found, a, b, k);
        let j = lemma_place(found, a, b, k);
        if j < k {
            assert(precedes(a[j], a[k]));
            lemma_precedes_irreflexive(a[k]);
        } else if j > k {
            let m = lemma_place(found, b, a, k);
            assert(precedes(b[k], b[j]));
            if m < k {
                assert(precedes(b[m], b[k]));
                lemma_precedes_irreflexive(b[k]);
            } else if m > k {
                assert(precedes(a[k], a[m]));
                lemma_precedes_transitive(a[k], b[k], a[k]);
                lemma_precedes_irreflexive(a[k]);
            } else {
                lemma_precedes_irreflexive(a[k]);
            }
        }
    }
}

/// The place in one merged list of a skill of the other.
proof fn lemma_place(found: Seq<SkillView>, a: Seq<SkillView>, b: Seq<SkillView>, k: int) -> (j:
    int)
    requires
        merged(found, a),
        merged(found, b),
        0 <= k < a.len(),
    ensures
        0 <= j < b.len(),
        b[j] == a[k],
{
    assert(kept(found, a[k]));
    let at = choose|at: int| #[trigger] first_of_name(found, at) && found[at] == a[k];
    assert(b.contains(found[at]));
    choose|j: int| 0 <= j < b.len() && b[j] == found[at]
}

/// No two skills that come out have the same name.
pub proof fn law_names_are_unique(
    found: Seq<SkillView>,
    skills: Seq<SkillView>,
    i: int,
    j: int,
)
    requires
        merged(found, skills),
        0 <= i < j < skills.len(),
    ensures
        skills[i].name != skills[j].name,
{
    assert(kept(found, skills[i]));
    assert(kept(found, skills[j]));
    let a = choose|a: int| #[trigger] first_of_name(found, a) && found[a] == skills[i];
    let b = choose|b: int| #[trigger] first_of_name(found, b) && found[b] == skills[j];
    assert(precedes(skills[i], skills[j]));
    lemma_precedes_irreflexive(skills[i]);
    if a < b {
        assert(found[a].name != found[b].name);
    } else if b < a {
        assert(found[b].name != found[a].name);
    }
}

/// For each skill that was found, one of its name comes out.
pub proof fn law_no_name_is_lost(found: Seq<SkillView>, skills: Seq<SkillView>, i: int) -> (j: int)
    requires
        merged(found, skills),
        0 <= i < found.len(),
    ensures
        0 <= j < skills.len(),
        skills[j].name == found[i].name,
{
    lemma_first_exists(found, i);
    let at = choose|at: int| #[trigger]
        first_of_name(found, at) && at <= i && found[at].name == found[i].name;
    assert(skills.contains(found[at]));
    choose|j: int| 0 <= j < skills.len() && skills[j] == found[at]
}

/// Of the skills with the same name, the one that was found earlier comes out: what is found
/// later, such as under a root of lower precedence, does not replace it.
pub proof fn law_earlier_skills_win(
    earlier: Seq<SkillView>,
    later: Seq<SkillView>,
    skills: Seq<SkillView>,
    i: int,
    j: int,
)
    requires
        merged(earlier + later, skills),
        0 <= i < skills.len(),
        0 <= j < earlier.len(),
        skills[i].name == earlier[j].name,
    ensures
        kept(earlier, skills[i]),
{
    let found = earlier + later;
    assert(kept(found, skills[i]));
    let at = choose|at: int| #[trigger] first_of_name(found, at) && found[at] == skills[i];
    assert(found[j] == earlier[j]);
    assert(at <= j);
    assert(first_of_name(earlier, at)) by {
        assert forall|k: int| 0 <= k < at implies (#[trigger] earlier[k]).name
            != earlier[at].name by {
            assert(found[k].name != found[at].name);
        }
    }
    assert(earlier[at] == skills[i]);
}

/// The skills come out with those of the repository first, then the user's, the embedded ones
/// and the administrator's, and by name within each scope.
pub proof fn law_skills_are_in_order(
    found: Seq<SkillView>,
    skills: Seq<SkillView>,
    i: int,
    j: int,
)
    requires
        merged(found, skills),
        0 <= i < j < skills.len(),
    ensures
        rank(skills[i].scope) <= rank(skills[j].scope),
        skills[i].scope == skills[j].scope ==> text_less(
            skills[i].name,
            skills[j].name,
        ),
{
    assert(precedes(skills[i], skills[j]));
}

/// Whether the texts of a skill keep to their limits: each is on a single line and not empty,
/// and none is too long.
pub open spec fn within_limits(
    name: Seq<char>,
    description: Seq<char>,
    short_description: Option<Seq<char>>,
) -> bool {
    &&& 0 < name.len() <= MAX_NAME_LEN && single_line(name) == name
    &&& 0 < description.len() <= MAX_DESCRIPTION_LEN && single_line(description) == description
    &&& short_description matches Some(short) ==> 0 < short.len() <= MAX_SHORT_DESCRIPTION_LEN
        && single_line(short) == short
}

/// Whether the skills that a loader has found keep to their limits, and so does the skill that
/// it is about to add.
pub open spec fn keeps_limits(loader: LoaderView) -> bool {
    &&& forall|i: int|
        0 <= i < loader.found.skills.len() ==> within_limits(
            (#[trigger] loader.found.skills[i]).name,
            loader.found.skills[i].description,
            loader.found.skills[i].short_description,
        )
    &&& loader.stage matches StageView::ResolveFile { fields, .. } ==> within_limits(
        fields.name,
        fields.description,
        fields.short_description,
    )
}

/// Fields that pass the check keep to their limits.
pub proof fn law_checked_fields_keep_limits(raw: SkillText)
    ensures
        checked_fields(raw) matches Ok(fields) ==> within_limits(
            fields.name,
            fields.description,
            fields.short_description,
        ),
{
    law_single_line_is_stable(raw.name);
    law_single_line_is_stable(raw.description);
    if let Some(short) = raw.short_description {
        law_single_line_is_stable(short);
    }
}

proof fn lemma_next_entry_keeps(scan: ScanView, roots: Seq<RootView>, found: Found)
    ensures
        next_entry(scan, roots, found).found == found,
        !(next_entry(scan, roots, found).stage is ResolveFile),
    decreases scan.entries.len(),
{
    if scan.entries.len() > 0 {
        let entry = scan.entries[0];
        let rest = ScanView { entries: scan.entries.drop_first(), ..scan };
        lemma_next_entry_keeps(rest, roots, found);
        lemma_next_entry_keeps(
            ScanView {
                walk: WalkView {
                    scope: scan.walk.scope,
                    queue: scan.walk.queue.push(child(scan.dir, entry.name->0)),
                },
                ..rest
            },
            roots,
            found,
        );
    }
}

/// A search begins with all limits kept, and no reply, whatever it is, makes it break them.
pub proof fn law_limits_are_kept(roots: Seq<RootView>, loader: LoaderView, reply: ReplyView)
    ensures
        keeps_limits(start(roots)),
        keeps_limits(loader) ==> keeps_limits(step(loader, reply)),
{
    if keeps_limits(loader) {
        let next = step(loader, reply);
        match (loader.stage, reply) {
            (StageView::List { dir, walk }, ReplyView::Entries(Some(entries))) => {
                lemma_next_entry_keeps(
                    ScanView { dir, entries, walk },
                    loader.roots,
                    loader.found,
                );
            },
            (StageView::Read { scan, .. }, ReplyView::Contents(_)) => {
                lemma_failure_keeps(loader, next, scan);
            },
            (StageView::Parse { scan, .. }, ReplyView::Parsed(parsed)) => {
                if let Ok(text) = parsed {
                    law_checked_fields_keep_limits(text);
                }
                lemma_failure_keeps(loader, next, scan);
            },
            (StageView::ResolveFile { file, fields, scan }, ReplyView::Resolved(resolved)) => {
                let skill = skill_of(fields, scan.walk.scope, file, resolved);
                lemma_next_entry_keeps(scan, loader.roots, loader.found.with_skill(skill));
                assert forall|i: int| 0 <= i < next.found.skills.len() implies within_limits(
                    (#[trigger] next.found.skills[i]).name,
                    next.found.skills[i].description,
                    next.found.skills[i].short_description,
                ) by {
                    if i < loader.found.skills.len() {
                        assert(next.found.skills[i] == loader.found.skills[i]);
                    }
                }
            },
            _ => {},
        }
    }
}

/// The loader after these replies.
pub open spec fn told(loader: LoaderView, replies: Seq<ReplyView>) -> LoaderView
    decreases replies.len(),
{
    if replies.len() == 0 {
        loader
    } else {
        step(told(loader, replies.drop_last()), replies.last())
    }
}

proof fn lemma_told_keeps_limits(roots: Seq<RootView>, replies: Seq<ReplyView>)
    ensures
        keeps_limits(told(start(roots), replies)),
    decreases replies.len(),
{
    if replies.len() == 0 {
        law_limits_are_kept(roots, start(roots), ReplyView::IsDir(false));
    } else {
        lemma_told_keeps_limits(roots, replies.drop_last());
        law_limits_are_kept(roots, told(start(roots), replies.drop_last()), replies.last());
    }
}

/// Every skill that a search gives keeps to its limits, whatever the search is told.
pub proof fn law_loaded_skills_keep_limits(
    roots: Seq<RootView>,
    replies: Seq<ReplyView>,
    skills: Seq<SkillView>,
    i: int,
)
    requires
        merged(told(start(roots), replies).found.skills, skills),
        0 <= i < skills.len(),
    ensures
        within_limits(skills[i].name, skills[i].description, skills[i].short_description),
{
    let found = told(start(roots), replies).found.skills;
    lemma_told_keeps_limits(roots, replies);
    assert(kept(found, skills[i]));
    let at = choose|at: int| #[trigger] first_of_name(found, at) && found[at] == skills[i];
    assert(found[at] == skills[i]);
}

proof fn lemma_failure_keeps(loader: LoaderView, next: LoaderView, scan: ScanView)
    ensures
        forall|found: Found|
            next == next_entry(scan, loader.roots, found) && found.skills == loader.found.skills
                ==> next.found.skills == loader.found.skills && !(next.stage is ResolveFile),
{
    assert forall|found: Found|
        next == next_entry(scan, loader.roots, found) && found.skills
            == loader.found.skills implies next.found.skills == loader.found.skills && !(
    next.stage is ResolveFile) by {
        lemma_next_entry_keeps(scan, loader.roots, found);
    }
}

// The directories that are visited.

/// The sum of the sizes of these directories.
pub open spec fn total(size: spec_fn(PathView) -> nat, dirs: Seq<PathView>) -> nat
    decreases dirs.len(),
{
    if dirs.len() == 0 {
        0
    } else {
        size(dirs[0]) + total(size, dirs.drop_first())
    }
}

proof fn lemma_total_concat(size: spec_fn(PathView) -> nat, a: Seq<PathView>, b: Seq<PathView>)
    ensures
        total(size, a + b) == total(size, a) + total(size, b),
    decreases a.len(),
{
    if a.len() == 0 {
        assert(a + b =~= b);
    } else {
        lemma_total_concat(size, a.drop_first(), b);
        assert((a + b).drop_first() =~= a.drop_first() + b);
    }
}

/// Where each directory is larger than its subdirectories together, as in every tree of
/// directories, the walk comes to an end.
pub proof fn law_walk_ends(
    disk: Disk,
    queue: Seq<PathView>,
    size: spec_fn(PathView) -> nat,
) -> (dirs: Seq<PathView>)
    requires
        forall|dir: PathView| #[trigger]
            size(dir) > total(size, subdirs_among(dir, listing(disk, dir))),
    ensures
        breadth_first(disk, queue, dirs),
    decreases total(size, queue),
{
    if queue.len() == 0 {
        seq![]
    } else {
        let dir = queue[0];
        let subdirs = subdirs_among(dir, listing(disk, dir));
        assert(size(dir) > total(size, subdirs));
        lemma_total_concat(size, queue.drop_first(), subdirs);
        let rest = law_walk_ends(disk, queue.drop_first() + subdirs, size);
        let dirs = seq![dir] + rest;
        assert(dirs.drop_first() =~= rest);
        dirs
    }
}

/// Whether these are the bytes of a name that is not hidden.
pub open spec fn visible(part: Seq<u8>) -> bool {
    exists|name: Seq<char>| part == #[trigger] encode_utf8(name) && !(name.len() > 0 && name[0]
        == '.')
}

/// Whether `path` is `root`, or is reached from it through names that are not hidden.
pub open spec fn below(root: PathView, path: PathView) -> bool {
    &&& root.len() <= path.len()
    &&& path.take(root.len() as int) == root
    &&& forall|i: int| root.len() <= i < path.len() ==> visible(#[trigger] path[i])
}

proof fn lemma_child_below(root: PathView, dir: PathView, entry: EntryView)
    requires
        below(root, dir),
        !(role(entry) is Skipped),
    ensures
        below(root, child(dir, entry.name->0)),
{
    let name = entry.name->0;
    let path = child(dir, name);
    assert(visible(encode_utf8(name)));
    assert(path.take(root.len() as int) =~= root);
    assert forall|i: int| root.len() <= i < path.len() implies visible(#[trigger] path[i]) by {
        if i < dir.len() {
            assert(path[i] == dir[i]);
        }
    }
}

spec fn all_below(root: PathView, paths: Seq<PathView>) -> bool {
    forall|i: int| 0 <= i < paths.len() ==> below(root, #[trigger] paths[i])
}

proof fn lemma_subdirs_below(root: PathView, dir: PathView, entries: Seq<EntryView>)
    requires
        below(root, dir),
    ensures
        all_below(root, subdirs_among(dir, entries)),
    decreases entries.len(),
{
    if entries.len() > 0 {
        lemma_subdirs_below(root, dir, entries.drop_first());
        if role(entries[0]) is Subdir {
            lemma_child_below(root, dir, entries[0]);
            let rest = subdirs_among(dir, entries.drop_first());
            let all = subdirs_among(dir, entries);
            assert forall|i: int| 0 <= i < all.len() implies below(root, #[trigger] all[i]) by {
                if i > 0 {
                    assert(all[i] == rest[i - 1]);
                }
            }
        }
    }
}

proof fn lemma_walk_below(disk: Disk, root: PathView, queue: Seq<PathView>, dirs: Seq<PathView>)
    requires
        breadth_first(disk, queue, dirs),
        all_below(root, queue),
    ensures
        all_below(root, dirs),
    decreases dirs.len(),
{
    if dirs.len() > 0 {
        let dir = dirs[0];
        let subdirs = subdirs_among(dir, listing(disk, dir));
        let longer = queue.drop_first() + subdirs;
        assert(below(root, queue[0]));
        lemma_subdirs_below(root, dir, listing(disk, dir));
        assert forall|i: int| 0 <= i < longer.len() implies below(root, #[trigger] longer[i]) by {
            if i < queue.len() - 1 {
                assert(longer[i] == queue[i + 1]);
            } else {
                assert(longer[i] == subdirs[i - (queue.len() - 1)]);
            }
        }
        lemma_walk_below(disk, root, longer, dirs.drop_first());
        assert forall|i: int| 0 <= i < dirs.len() implies below(root, #[trigger] dirs[i]) by {
            if i > 0 {
                assert(dirs[i] == dirs.drop_first()[i - 1]);
            }
        }
    }
}

/// The search under a root does not leave it, and enters no hidden directory.
pub proof fn law_search_stays_under_root(
    disk: Disk,
    root: PathView,
    dirs: Seq<PathView>,
    i: int,
)
    requires
        breadth_first(disk, seq![root], dirs),
        0 <= i < dirs.len(),
    ensures
        below(root, dirs[i]),
{
    assert(root.take(root.len() as int) =~= root);
    lemma_walk_below(disk, root, seq![root], dirs);
}

/// The search under the directory of the user's own skills does not enter the cache of the
/// embedded ones, though it lies there.
pub proof fn law_system_cache_is_not_entered(
    disk: Disk,
    root: PathView,
    dirs: Seq<PathView>,
    i: int,
)
    requires
        breadth_first(disk, seq![root], dirs),
        0 <= i < dirs.len(),
    ensures
        dirs[i].len() > root.len() ==> dirs[i].take(root.len() as int + 1) != child(
            root,
            SYSTEM_CACHE_DIR_NAME@,
        ),
{
    let dir = dirs[i];
    let n = root.len() as int;
    law_search_stays_under_root(disk, root, dirs, i);
    if dir.len() > n && dir.take(n + 1) == child(root, SYSTEM_CACHE_DIR_NAME@) {
        assert(dir[n] == dir.take(n + 1)[n]);
        assert(visible(dir[n]));
        let name = choose|name: Seq<char>| dir[n] == #[trigger] encode_utf8(name) && !(name.len()
            > 0 && name[0] == '.');
        encode_utf8_decode_utf8(name);
        encode_utf8_decode_utf8(SYSTEM_CACHE_DIR_NAME@);
        reveal_strlit(".system");
    }
}

// The skill files that are read.

/// The skill files among the entries of a directory.
pub open spec fn skill_files_among(dir: PathView, entries: Seq<EntryView>) -> Seq<PathView>
    decreases entries.len(),
{
    if entries.len() == 0 {
        seq![]
    } else {
        let rest = skill_files_among(dir, entries.drop_first());
        if role(entries[0]) is SkillFile {
            seq![child(dir, entries[0].name->0)] + rest
        } else {
            rest
        }
    }
}

/// The skill files in these directories.
pub open spec fn skill_files(disk: Disk, dirs: Seq<PathView>) -> Seq<PathView>
    decreases dirs.len(),
{
    if dirs.len() == 0 {
        seq![]
    } else {
        skill_files_among(dirs[0], listing(disk, dirs[0])) + skill_files(disk, dirs.drop_first())
    }
}

/// What these files give, one after the other.
pub open spec fn found_from(disk: Disk, scope: SkillScope, files: Seq<PathView>) -> Found
    decreases files.len(),
{
    if files.len() == 0 {
        Found::nothing()
    } else {
        plus(found_at(disk, scope, files[0]), found_from(disk, scope, files.drop_first()))
    }
}

proof fn lemma_found_from_concat(
    disk: Disk,
    scope: SkillScope,
    a: Seq<PathView>,
    b: Seq<PathView>,
)
    ensures
        found_from(disk, scope, a + b) == plus(
            found_from(disk, scope, a),
            found_from(disk, scope, b),
        ),
    decreases a.len(),
{
    if a.len() == 0 {
        assert(a + b =~= b);
        lemma_plus(found_from(disk, scope, b), Found::nothing(), Found::nothing());
    } else {
        lemma_found_from_concat(disk, scope, a.drop_first(), b);
        assert((a + b).drop_first() =~= a.drop_first() + b);
        lemma_plus(
            found_at(disk, scope, a[0]),
            found_from(disk, scope, a.drop_first()),
            found_from(disk, scope, b),
        );
    }
}

proof fn lemma_found_among_files(
    disk: Disk,
    scope: SkillScope,
    dir: PathView,
    entries: Seq<EntryView>,
)
    ensures
        found_among(disk, scope, dir, entries) == found_from(
            disk,
            scope,
            skill_files_among(dir, entries),
        ),
    decreases entries.len(),
{
    if entries.len() > 0 {
        lemma_found_among_files(disk, scope, dir, entries.drop_first());
        if role(entries[0]) is SkillFile {
            let rest = skill_files_among(dir, entries.drop_first());
            assert(skill_files_among(dir, entries).drop_first() =~= rest);
        }
    }
}

/// What is found in the directories is what their skill files give, and nothing else.
pub proof fn law_only_skill_files_count(disk: Disk, scope: SkillScope, dirs: Seq<PathView>)
    ensures
        found_in(disk, scope, dirs) == found_from(disk, scope, skill_files(disk, dirs)),
    decreases dirs.len(),
{
    if dirs.len() > 0 {
        let entries = listing(disk, dirs[0]);
        law_only_skill_files_count(disk, scope, dirs.drop_first());
        lemma_found_among_files(disk, scope, dirs[0], entries);
        lemma_found_from_concat(
            disk,
            scope,
            skill_files_among(dirs[0], entries),
            skill_files(disk, dirs.drop_first()),
        );
    }
}

proof fn lemma_found_from_counts(disk: Disk, scope: SkillScope, files: Seq<PathView>)
    ensures
        scope != SkillScope::System ==> found_from(disk, scope, files).skills.len() + found_from(
            disk,
            scope,
            files,
        ).errors.len() == files.len(),
        scope == SkillScope::System ==> found_from(disk, scope, files).errors.len() == 0,
    decreases files.len(),
{
    if files.len() > 0 {
        lemma_found_from_counts(disk, scope, files.drop_first());
    }
}

/// Each skill file gives a skill or a failure. Only among the embedded skills are failures
/// passed over.
pub proof fn law_no_skill_file_is_passed_over(
    disk: Disk,
    scope: SkillScope,
    dirs: Seq<PathView>,
)
    requires
        scope != SkillScope::System,
    ensures
        found_in(disk, scope, dirs).skills.len() + found_in(disk, scope, dirs).errors.len()
            == skill_files(disk, dirs).len(),
{
    law_only_skill_files_count(disk, scope, dirs);
    lemma_found_from_counts(disk, scope, skill_files(disk, dirs));
}

/// Failures among the embedded skills are not reported.
pub proof fn law_system_failures_are_silent(disk: Disk, dirs: Seq<PathView>)
    ensures
        found_in(disk, SkillScope::System, dirs).errors.len() == 0,
{
    law_only_skill_files_count(disk, SkillScope::System, dirs);
    lemma_found_from_counts(disk, SkillScope::System, skill_files(disk, dirs));
}

proof fn lemma_skill_files_among(root: PathView, dir: PathView, entries: Seq<EntryView>, i: int)
    requires
        below(root, dir),
        0 <= i < skill_files_among(dir, entries).len(),
    ensures
        below(root, skill_files_among(dir, entries)[i]),
        skill_files_among(dir, entries)[i] == child(dir, SKILLS_FILENAME@),
    decreases entries.len(),
{
    if role(entries[0]) is SkillFile {
        lemma_child_below(root, dir, entries[0]);
        if i > 0 {
            lemma_skill_files_among(root, dir, entries.drop_first(), i - 1);
        }
    } else {
        lemma_skill_files_among(root, dir, entries.drop_first(), i);
    }
}

proof fn lemma_skill_files(disk: Disk, root: PathView, dirs: Seq<PathView>, i: int)
    requires
        all_below(root, dirs),
        0 <= i < skill_files(disk, dirs).len(),
    ensures
        below(root, skill_files(disk, dirs)[i]),
        skill_files(disk, dirs)[i].len() > 0,
        skill_files(disk, dirs)[i].last() == encode_utf8(SKILLS_FILENAME@),
    decreases dirs.len(),
{
    let entries = listing(disk, dirs[0]);
    let n = skill_files_among(dirs[0], entries).len();
    assert(below(root, dirs[0]));
    if i < n {
        lemma_skill_files_among(root, dirs[0], entries, i);
    } else {
        let rest = dirs.drop_first();
        assert forall|j: int| 0 <= j < rest.len() implies below(root, #[trigger] rest[j]) by {
            assert(rest[j] == dirs[j + 1]);
        }
        lemma_skill_files(disk, root, rest, i - n);
    }
}

/// Every skill file that is read is called `SKILL.md` and lies under the root, in no hidden
/// directory.
pub proof fn law_skill_files_lie_under_root(
    disk: Disk,
    root: PathView,
    dirs: Seq<PathView>,
    i: int,
)
    requires
        breadth_first(disk, seq![root], dirs),
        0 <= i < skill_files(disk, dirs).len(),
    ensures
        below(root, skill_files(disk, dirs)[i]),
        skill_files(disk, dirs)[i].len() > 0,
        skill_files(disk, dirs)[i].last() == encode_utf8(SKILLS_FILENAME@),
{
    assert(root.take(root.len() as int) =~= root);
    lemma_walk_below(disk, root, seq![root], dirs);
    lemma_skill_files(disk, root, dirs, i);
}

// Precedence among the roots.

proof fn lemma_all_found_concat(
    disk: Disk,
    roots: Seq<RootView>,
    walks: Seq<Seq<PathView>>,
    more_roots: Seq<RootView>,
    more_walks: Seq<Seq<PathView>>,
)
    requires
        roots.len() == walks.len(),
    ensures
        all_found(disk, roots + more_roots, walks + more_walks) == plus(
            all_found(disk, roots, walks),
            all_found(disk, more_roots, more_walks),
        ),
    decreases roots.len(),
{
    if roots.len() == 0 {
        assert(roots + more_roots =~= more_roots);
        assert(walks + more_walks =~= more_walks);
        lemma_plus(
            all_found(disk, more_roots, more_walks),
            Found::nothing(),
            Found::nothing(),
        );
    } else {
        lemma_all_found_concat(
            disk,
            roots.drop_first(),
            walks.drop_first(),
            more_roots,
            more_walks,
        );
        assert((roots + more_roots).drop_first() =~= roots.drop_first() + more_roots);
        assert((walks + more_walks).drop_first() =~= walks.drop_first() + more_walks);
        lemma_plus(
            found_in(disk, roots[0].scope, walks[0]),
            all_found(disk, roots.drop_first(), walks.drop_first()),
            all_found(disk, more_roots, more_walks),
        );
    }
}

/// A skill that is found under an earlier root is not replaced by one of its name under a later
/// root.
pub proof fn law_earlier_roots_win(
    disk: Disk,
    roots: Seq<RootView>,
    walks: Seq<Seq<PathView>>,
    later_roots: Seq<RootView>,
    later_walks: Seq<Seq<PathView>>,
    skills: Seq<SkillView>,
    i: int,
    j: int,
)
    requires
        visits_all(disk, roots, walks),
        visits_all(disk, later_roots, later_walks),
        merged(all_found(disk, roots + later_roots, walks + later_walks).skills, skills),
        0 <= i < skills.len(),
        0 <= j < all_found(disk, roots, walks).skills.len(),
        skills[i].name == all_found(disk, roots, walks).skills[j].name,
    ensures
        kept(all_found(disk, roots, walks).skills, skills[i]),
{
    lemma_all_found_concat(disk, roots, walks, later_roots, later_walks);
    law_earlier_skills_win(
        all_found(disk, roots, walks).skills,
        all_found(disk, later_roots, later_walks).skills,
        skills,
        i,
        j,
    );
}

// The outcome as a whole.

/// Whether these are the skills and the failures of a search under `roots`: what lies in the
/// directories that are visited, merged.
pub open spec fn loaded(
    disk: Disk,
    roots: Seq<RootView>,
    skills: Seq<SkillView>,
    errors: Seq<ErrorView>,
) -> bool {
    exists|walks: Seq<Seq<PathView>>| #[trigger]
        visits_all(disk, roots, walks) && merged(all_found(disk, roots, walks).skills, skills)
            && all_found(disk, roots, walks).errors == errors
}

/// When a search is over, its outcome is what is to be loaded.
pub proof fn law_outcome_is_what_is_loaded(
    disk: Disk,
    roots: Seq<RootView>,
    n: nat,
    skills: Seq<SkillView>,
)
    requires
        after(disk, start(roots), n).stage is Done,
        merged(after(disk, start(roots), n).found.skills, skills),
    ensures
        loaded(disk, roots, skills, after(disk, start(roots), n).found.errors),
{
    let walks = law_finished_search_is_complete(disk, roots, n);
    assert(visits_all(disk, roots, walks));
}

/// The directories to visit are determined by the roots and the disk.
pub proof fn lemma_walks_are_determined(
    disk: Disk,
    roots: Seq<RootView>,
    a: Seq<Seq<PathView>>,
    b: Seq<Seq<PathView>>,
)
    requires
        visits_all(disk, roots, a),
        visits_all(disk, roots, b),
    ensures
        a == b,
{
    assert forall|i: int| 0 <= i < roots.len() implies a[i] == b[i] by {
        assert(visits(disk, roots[i], a[i]));
        assert(visits(disk, roots[i], b[i]));
        let path = (disk.canonical)(roots[i].path);
        if path is Some && (disk.is_dir)(path->0) {
            law_walk_is_determined(disk, seq![path->0], a[i], b[i]);
        } else {
            assert(a[i] =~= b[i]);
        }
    }
    assert(a =~= b);
}

/// What is loaded is determined by the roots and the disk.
pub proof fn law_loaded_is_determined(
    disk: Disk,
    roots: Seq<RootView>,
    skills: Seq<SkillView>,
    errors: Seq<ErrorView>,
    other_skills: Seq<SkillView>,
    other_errors: Seq<ErrorView>,
)
    requires
        loaded(disk, roots, skills, errors),
        loaded(disk, roots, other_skills, other_errors),
    ensures
        skills == other_skills,
        errors == other_errors,
{
    let a = choose|walks: Seq<Seq<PathView>>| #[trigger]
        visits_all(disk, roots, walks) && merged(all_found(disk, roots, walks).skills, skills)
            && all_found(disk, roots, walks).errors == errors;
    let b = choose|walks: Seq<Seq<PathView>>| #[trigger]
        visits_all(disk, roots, walks) && merged(
            all_found(disk, roots, walks).skills,
            other_skills,
        ) && all_found(disk, roots, walks).errors == other_errors;
    lemma_walks_are_determined(disk, roots, a, b);
    law_merge_is_determined(all_found(disk, roots, a).skills, skills, other_skills);
}

proof fn lemma_scope_among(
    disk: Disk,
    scope: SkillScope,
    dir: PathView,
    entries: Seq<EntryView>,
)
    ensures
        forall|k: int|
            0 <= k < found_among(disk, scope, dir, entries).skills.len() ==> (
            #[trigger] found_among(disk, scope, dir, entries).skills[k]).scope == scope,
    decreases entries.len(),
{
    if entries.len() > 0 {
        lemma_scope_among(disk, scope, dir, entries.drop_first());
    }
}

/// Skills have the scope of the root that they are found under.
pub proof fn law_scope_is_that_of_root(disk: Disk, scope: SkillScope, dirs: Seq<PathView>, k: int)
    requires
        0 <= k < found_in(disk, scope, dirs).skills.len(),
    ensures
        found_in(disk, scope, dirs).skills[k].scope == scope,
    decreases dirs.len(),
{
    let here = found_among(disk, scope, dirs[0], listing(disk, dirs[0]));
    lemma_scope_among(disk, scope, dirs[0], listing(disk, dirs[0]));
    if k >= here.skills.len() {
        law_scope_is_that_of_root(disk, scope, dirs.drop_first(), k - here.skills.len());
    }
}

/// The root that a skill is found under.
proof fn lemma_root_of_skill(
    disk: Disk,
    roots: Seq<RootView>,
    walks: Seq<Seq<PathView>>,
    k: int,
) -> (at: int)
    requires
        0 <= k < all_found(disk, roots, walks).skills.len(),
    ensures
        0 <= at < roots.len(),
        all_found(disk, roots, walks).skills[k].scope == roots[at].scope,
    decreases roots.len(),
{
    let here = found_in(disk, roots[0].scope, walks[0]);
    if k < here.skills.len() {
        law_scope_is_that_of_root(disk, roots[0].scope, walks[0], k);
        0
    } else {
        1 + lemma_root_of_skill(
            disk,
            roots.drop_first(),
            walks.drop_first(),
            k - here.skills.len(),
        )
    }
}

/// Where the scopes of the roots are in order, so are those of the skills that are found.
proof fn lemma_found_in_order(
    disk: Disk,
    roots: Seq<RootView>,
    walks: Seq<Seq<PathView>>,
    i: int,
    j: int,
)
    requires
        scopes_in_order(roots),
        0 <= i <= j < all_found(disk, roots, walks).skills.len(),
    ensures
        rank(all_found(disk, roots, walks).skills[i].scope) <= rank(
            all_found(disk, roots, walks).skills[j].scope,
        ),
    decreases roots.len(),
{
    let here = found_in(disk, roots[0].scope, walks[0]);
    let rest = roots.drop_first();
    if i < here.skills.len() {
        law_scope_is_that_of_root(disk, roots[0].scope, walks[0], i);
        let at = lemma_root_of_skill(disk, roots, walks, j);
        assert(rank(roots[0].scope) <= rank(roots[at].scope));
    } else {
        assert forall|m: int, n: int| 0 <= m < n < rest.len() implies rank(
            (#[trigger] rest[m]).scope,
        ) <= rank((#[trigger] rest[n]).scope) by {
            assert(rest[m] == roots[m + 1] && rest[n] == roots[n + 1]);
        }
        lemma_found_in_order(
            disk,
            rest,
            walks.drop_first(),
            i - here.skills.len(),
            j - here.skills.len(),
        );
    }
}

/// Where roots of scopes with higher priority come first, no skill that is found under the
/// roots has the name of one that is loaded and a scope of higher priority.
pub proof fn law_higher_scopes_win_under_roots(
    disk: Disk,
    roots: Seq<RootView>,
    walks: Seq<Seq<PathView>>,
    skills: Seq<SkillView>,
    errors: Seq<ErrorView>,
    i: int,
    k: int,
)
    requires
        scopes_in_order(roots),
        loaded(disk, roots, skills, errors),
        visits_all(disk, roots, walks),
        0 <= i < skills.len(),
        0 <= k < all_found(disk, roots, walks).skills.len(),
        all_found(disk, roots, walks).skills[k].name == skills[i].name,
    ensures
        rank(skills[i].scope) <= rank(all_found(disk, roots, walks).skills[k].scope),
{
    let a = choose|a: Seq<Seq<PathView>>| #[trigger]
        visits_all(disk, roots, a) && merged(all_found(disk, roots, a).skills, skills)
            && all_found(disk, roots, a).errors == errors;
    lemma_walks_are_determined(disk, roots, a, walks);
    let found = all_found(disk, roots, walks).skills;
    assert(kept(found, skills[i]));
    let at = choose|at: int| #[trigger] first_of_name(found, at) && found[at] == skills[i];
    assert(at <= k);
    lemma_found_in_order(disk, roots, walks, at, k);
}

/// Of the skills with the same name, one of the scope with the highest priority is loaded: the
/// repository's before the user's, the user's before the embedded ones, and these before the
/// administrator's. So it is where the layers of the configuration are in the usual order.
pub proof fn law_higher_scopes_win(
    disk: Disk,
    layers: Seq<LayerView>,
    walks: Seq<Seq<PathView>>,
    skills: Seq<SkillView>,
    errors: Seq<ErrorView>,
    i: int,
    k: int,
)
    requires
        in_usual_order(layers),
        loaded(disk, stack_roots(layers), skills, errors),
        visits_all(disk, stack_roots(layers), walks),
        0 <= i < skills.len(),
        0 <= k < all_found(disk, stack_roots(layers), walks).skills.len(),
        all_found(disk, stack_roots(layers), walks).skills[k].name == skills[i].name,
    ensures
        rank(skills[i].scope) <= rank(
            all_found(disk, stack_roots(layers), walks).skills[k].scope,
        ),
{
    law_usual_layers_put_scopes_in_order(layers);
    law_higher_scopes_win_under_roots(disk, stack_roots(layers), walks, skills, errors, i, k);
}

// Entries and directories that make no difference.

/// The disk with another listing of one directory.
pub open spec fn with_listing(
    disk: Disk,
    dir: PathView,
    entries: Option<Seq<EntryView>>,
) -> Disk {
    Disk {
        entries: |path: PathView|
            if path == dir {
                entries
            } else {
                (disk.entries)(path)
            },
        ..disk
    }
}

/// Whether two disks differ in their listings at most.
spec fn same_files(disk: Disk, other: Disk) -> bool {
    &&& disk.canonical == other.canonical
    &&& disk.is_dir == other.is_dir
    &&& disk.contents == other.contents
    &&& disk.yaml == other.yaml
}

/// Whether the search sees the same in each directory of two disks.
spec fn same_view(disk: Disk, other: Disk) -> bool {
    &&& same_files(disk, other)
    &&& forall|dir: PathView| #[trigger]
        subdirs_among(dir, listing(disk, dir)) == subdirs_among(dir, listing(other, dir))
    &&& forall|scope: SkillScope, dir: PathView| #[trigger]
        found_among(disk, scope, dir, listing(disk, dir)) == found_among(
            other,
            scope,
            dir,
            listing(other, dir),
        )
}

proof fn lemma_found_among_same_files(
    disk: Disk,
    other: Disk,
    scope: SkillScope,
    dir: PathView,
    entries: Seq<EntryView>,
)
    requires
        same_files(disk, other),
    ensures
        found_among(disk, scope, dir, entries) == found_among(other, scope, dir, entries),
    decreases entries.len(),
{
    if entries.len() > 0 {
        lemma_found_among_same_files(disk, other, scope, dir, entries.drop_first());
    }
}

proof fn lemma_walk_same_view(
    disk: Disk,
    other: Disk,
    queue: Seq<PathView>,
    dirs: Seq<PathView>,
)
    requires
        same_view(disk, other),
    ensures
        breadth_first(disk, queue, dirs) == breadth_first(other, queue, dirs),
    decreases dirs.len(),
{
    if dirs.len() > 0 {
        let subdirs = subdirs_among(dirs[0], listing(disk, dirs[0]));
        assert(subdirs == subdirs_among(dirs[0], listing(other, dirs[0])));
        lemma_walk_same_view(disk, other, queue.drop_first() + subdirs, dirs.drop_first());
    }
}

proof fn lemma_found_in_same_view(
    disk: Disk,
    other: Disk,
    scope: SkillScope,
    dirs: Seq<PathView>,
)
    requires
        same_view(disk, other),
    ensures
        found_in(disk, scope, dirs) == found_in(other, scope, dirs),
    decreases dirs.len(),
{
    if dirs.len() > 0 {
        assert(found_among(disk, scope, dirs[0], listing(disk, dirs[0])) == found_among(
            other,
            scope,
            dirs[0],
            listing(other, dirs[0]),
        ));
        lemma_found_in_same_view(disk, other, scope, dirs.drop_first());
    }
}

proof fn lemma_visits_same_view(disk: Disk, other: Disk, root: RootView, dirs: Seq<PathView>)
    requires
        same_view(disk, other),
    ensures
        visits(disk, root, dirs) == visits(other, root, dirs),
{
    if let Some(path) = (disk.canonical)(root.path) {
        lemma_walk_same_view(disk, other, seq![path], dirs);
    }
}

proof fn lemma_all_found_same_view(
    disk: Disk,
    other: Disk,
    roots: Seq<RootView>,
    walks: Seq<Seq<PathView>>,
)
    requires
        same_view(disk, other),
    ensures
        all_found(disk, roots, walks) == all_found(other, roots, walks),
    decreases roots.len(),
{
    if roots.len() > 0 {
        lemma_found_in_same_view(disk, other, roots[0].scope, walks[0]);
        lemma_all_found_same_view(disk, other, roots.drop_first(), walks.drop_first());
    }
}

/// What is loaded from one of two disks that look the same is loaded from the other.
proof fn lemma_loaded_same_view(
    disk: Disk,
    other: Disk,
    roots: Seq<RootView>,
    skills: Seq<SkillView>,
    errors: Seq<ErrorView>,
)
    requires
        same_view(disk, other),
        loaded(disk, roots, skills, errors),
    ensures
        loaded(other, roots, skills, errors),
{
    let walks = choose|walks: Seq<Seq<PathView>>| #[trigger]
        visits_all(disk, roots, walks) && merged(all_found(disk, roots, walks).skills, skills)
            && all_found(disk, roots, walks).errors == errors;
    assert forall|i: int| 0 <= i < roots.len() implies visits(
        other,
        #[trigger] roots[i],
        walks[i],
    ) by {
        lemma_visits_same_view(disk, other, roots[i], walks[i]);
    }
    lemma_all_found_same_view(disk, other, roots, walks);
    assert(visits_all(other, roots, walks));
}

proof fn lemma_same_view_symmetric(disk: Disk, other: Disk)
    requires
        same_view(disk, other),
    ensures
        same_view(other, disk),
{
    assert forall|dir: PathView| #[trigger]
        subdirs_among(dir, listing(other, dir)) == subdirs_among(dir, listing(disk, dir)) by {
        assert(subdirs_among(dir, listing(disk, dir)) == subdirs_among(dir, listing(other, dir)));
    }
    assert forall|scope: SkillScope, dir: PathView| #[trigger]
        found_among(other, scope, dir, listing(other, dir)) == found_among(
            disk,
            scope,
            dir,
            listing(disk, dir),
        ) by {
        assert(found_among(disk, scope, dir, listing(disk, dir)) == found_among(
            other,
            scope,
            dir,
            listing(other, dir),
        ));
    }
}

/// Whether a search makes no difference between two disks: it visits the same directories,
/// finds the same in them, and loads the same.
pub open spec fn agree(disk: Disk, other: Disk) -> bool {
    &&& forall|root: RootView, dirs: Seq<PathView>| #[trigger]
        visits(disk, root, dirs) == visits(other, root, dirs)
    &&& forall|scope: SkillScope, dirs: Seq<PathView>| #[trigger]
        found_in(disk, scope, dirs) == found_in(other, scope, dirs)
    &&& forall|roots: Seq<RootView>, skills: Seq<SkillView>, errors: Seq<ErrorView>| #[trigger]
        loaded(disk, roots, skills, errors) == loaded(other, roots, skills, errors)
}

proof fn lemma_agree(disk: Disk, other: Disk)
    requires
        same_view(disk, other),
    ensures
        agree(disk, other),
{
    lemma_same_view_symmetric(disk, other);
    assert forall|root: RootView, dirs: Seq<PathView>| #[trigger]
        visits(disk, root, dirs) == visits(other, root, dirs) by {
        lemma_visits_same_view(disk, other, root, dirs);
    }
    assert forall|scope: SkillScope, dirs: Seq<PathView>| #[trigger]
        found_in(disk, scope, dirs) == found_in(other, scope, dirs) by {
        lemma_found_in_same_view(disk, other, scope, dirs);
    }
    assert forall|roots: Seq<RootView>, skills: Seq<SkillView>, errors: Seq<ErrorView>| #[trigger]
        loaded(disk, roots, skills, errors) == loaded(other, roots, skills, errors) by {
        if loaded(disk, roots, skills, errors) {
            lemma_loaded_same_view(disk, other, roots, skills, errors);
        }
        if loaded(other, roots, skills, errors) {
            lemma_loaded_same_view(other, disk, roots, skills, errors);
        }
    }
}

/// A symbolic link in a directory makes no difference there: nothing is found through it, and
/// it is no subdirectory to search.
pub proof fn law_link_is_passed_over(
    disk: Disk,
    scope: SkillScope,
    dir: PathView,
    before: Seq<EntryView>,
    link: EntryView,
    behind: Seq<EntryView>,
)
    requires
        link.file_type == Some(EntryType::Symlink),
    ensures
        found_among(disk, scope, dir, before + seq![link] + behind) == found_among(
            disk,
            scope,
            dir,
            before + behind,
        ),
        subdirs_among(dir, before + seq![link] + behind) == subdirs_among(dir, before + behind),
    decreases before.len(),
{
    let with = before + seq![link] + behind;
    let without = before + behind;
    if before.len() == 0 {
        assert(with.drop_first() =~= without);
    } else {
        law_link_is_passed_over(disk, scope, dir, before.drop_first(), link, behind);
        assert(with.drop_first() =~= before.drop_first() + seq![link] + behind);
        assert(without.drop_first() =~= before.drop_first() + behind);
    }
}

proof fn lemma_link_same_view(
    disk: Disk,
    dir: PathView,
    before: Seq<EntryView>,
    link: EntryView,
    behind: Seq<EntryView>,
)
    requires
        link.file_type == Some(EntryType::Symlink),
    ensures
        same_view(
            with_listing(disk, dir, Some(before + seq![link] + behind)),
            with_listing(disk, dir, Some(before + behind)),
        ),
{
    let with = with_listing(disk, dir, Some(before + seq![link] + behind));
    let without = with_listing(disk, dir, Some(before + behind));
    assert forall|path: PathView| #[trigger]
        subdirs_among(path, listing(with, path)) == subdirs_among(
            path,
            listing(without, path),
        ) by {
        if path == dir {
            law_link_is_passed_over(disk, SkillScope::User, dir, before, link, behind);
        }
    }
    assert forall|scope: SkillScope, path: PathView| #[trigger]
        found_among(with, scope, path, listing(with, path)) == found_among(
            without,
            scope,
            path,
            listing(without, path),
        ) by {
        lemma_found_among_same_files(with, without, scope, path, listing(with, path));
        if path == dir {
            law_link_is_passed_over(without, scope, dir, before, link, behind);
        }
    }
}

/// Symbolic links make no difference to a search, wherever they point: with a link in some
/// directory, the same directories are visited as without it, the same is found in them, and
/// the same is loaded.
pub proof fn law_links_make_no_difference(
    disk: Disk,
    dir: PathView,
    before: Seq<EntryView>,
    link: EntryView,
    behind: Seq<EntryView>,
)
    requires
        link.file_type == Some(EntryType::Symlink),
    ensures
        ({
            let with = with_listing(disk, dir, Some(before + seq![link] + behind));
            let without = with_listing(disk, dir, Some(before + behind));
            agree(with, without)
        }),
{
    let with = with_listing(disk, dir, Some(before + seq![link] + behind));
    let without = with_listing(disk, dir, Some(before + behind));
    lemma_link_same_view(disk, dir, before, link, behind);
    lemma_agree(with, without);
}

/// A directory that cannot be listed counts as an empty one: it is no failure, and the search
/// goes on with the others.
pub proof fn law_unlistable_directory_counts_as_empty(disk: Disk, dir: PathView)
    ensures
        agree(with_listing(disk, dir, None), with_listing(disk, dir, Some(seq![]))),
{
    let locked = with_listing(disk, dir, None);
    let empty = with_listing(disk, dir, Some(seq![]));
    assert forall|path: PathView| listing(locked, path) == #[trigger] listing(empty, path) by {}
    assert forall|scope: SkillScope, path: PathView| #[trigger]
        found_among(locked, scope, path, listing(locked, path)) == found_among(
            empty,
            scope,
            path,
            listing(empty, path),
        ) by {
        lemma_found_among_same_files(locked, empty, scope, path, listing(locked, path));
        assert(listing(locked, path) == listing(empty, path));
    }
    assert forall|path: PathView| #[trigger]
        subdirs_among(path, listing(locked, path)) == subdirs_among(
            path,
            listing(empty, path),
        ) by {
        assert(listing(locked, path) == listing(empty, path));
    }
    lemma_agree(locked, empty);
}

} // verus!
