//! What holds of the search, told on the layers of the configuration, the names and types of
//! entries, the contents of files, and the skills that come out.
use vstd::prelude::*;

verus! {

use vstd::utf8::encode_utf8;

use crate::config::{layer_roots, stack_roots, ConfigLayerSource, LayerView};
use crate::disk::{
    after, all_found, breadth_first, found_at, found_in, law_finished_search_is_complete,
    listing, skill_file, subdirs_among, visits, visits_all, Disk,
};
use crate::frontmatter::{checked_fields, single_line, yaml_source, ParseFailure, SkillText};
use crate::frontmatter_laws::{fits, has_word, law_fields_are_the_given_ones};
use crate::loader::{
    role, start, step, wanted, EntryType, EntryView, LoaderView, ReplyView, RequestView,
};
use crate::merge::{first_of_name, kept, merged, precedes, text_less};
use crate::model::{ErrorView, PathView, RootView, SkillScope, SkillView};
use crate::search_laws::{
    found_from, law_no_name_is_lost, law_only_skill_files_count, lemma_walks_are_determined,
    skill_files, skill_files_among,
};

// The roots.

/// The root at this path, which is given by the names below a folder.
pub open spec fn root_at(folder: PathView, names: Seq<Seq<char>>, scope: SkillScope) -> RootView {
    RootView { path: folder + names.map_values(|name: Seq<char>| encode_utf8(name)), scope }
}

/// Each layer with a folder has its roots, whatever the folder is: a project the directory
/// `skills` for the repository, the user's layer `skills` for the user and `.system` in it for
/// the embedded skills, and the system's layer `skills` for the administrator. No other layer
/// has any, and none without a folder.
pub proof fn law_folder_gives_roots(layer: LayerView)
    ensures
        layer.config_folder is None ==> layer_roots(layer).len() == 0,
        layer.config_folder matches Some(folder) ==> {
            let dir = seq!["skills"@];
            let cache = seq!["skills"@, ".system"@];
            &&& layer.name == ConfigLayerSource::Project ==> layer_roots(layer) == seq![
                root_at(folder, dir, SkillScope::Repo),
            ]
            &&& layer.name == ConfigLayerSource::User ==> layer_roots(layer) == seq![
                root_at(folder, dir, SkillScope::User),
                root_at(folder, cache, SkillScope::System),
            ]
            &&& layer.name == ConfigLayerSource::System ==> layer_roots(layer) == seq![
                root_at(folder, dir, SkillScope::Admin),
            ]
            &&& layer.name != ConfigLayerSource::Project && layer.name
                != ConfigLayerSource::User && layer.name != ConfigLayerSource::System
                ==> layer_roots(layer).len() == 0
        },
{
    if let Some(folder) = layer.config_folder {
        let one = root_at(folder, seq!["skills"@], SkillScope::Repo).path;
        let two = root_at(folder, seq!["skills"@, ".system"@], SkillScope::System).path;
        assert(one =~= folder.push(encode_utf8("skills"@)));
        assert(two =~= folder.push(encode_utf8("skills"@)).push(encode_utf8(".system"@)));
    }
}

/// The roots of every layer are among those of the stack.
pub proof fn law_no_layer_is_passed_over(layers: Seq<LayerView>, l: int, r: int)
    requires
        0 <= l < layers.len(),
        0 <= r < layer_roots(layers[l]).len(),
    ensures
        stack_roots(layers).contains(layer_roots(layers[l])[r]),
    decreases layers.len(),
{
    let first = layer_roots(layers.last());
    let rest = stack_roots(layers.drop_last());
    let root = layer_roots(layers[l])[r];
    if l == layers.len() - 1 {
        assert(stack_roots(layers)[r] == root);
    } else {
        law_no_layer_is_passed_over(layers.drop_last(), l, r);
        let at = choose|at: int| 0 <= at < rest.len() && rest[at] == root;
        assert(stack_roots(layers)[first.len() + at] == root);
    }
}

/// The stack has the roots of its layers, those of the highest first, and no others.
pub proof fn law_stack_has_the_roots_of_its_layers(layers: Seq<LayerView>)
    ensures
        stack_roots(layers) == Seq::new(
            layers.len(),
            |i: int| layer_roots(layers[layers.len() - 1 - i]),
        ).flatten(),
    decreases layers.len(),
{
    let parts = Seq::new(layers.len(), |i: int| layer_roots(layers[layers.len() - 1 - i]));
    if layers.len() > 0 {
        let lower = layers.drop_last();
        law_stack_has_the_roots_of_its_layers(lower);
        assert(parts.drop_first() =~= Seq::new(
            lower.len(),
            |i: int| layer_roots(lower[lower.len() - 1 - i]),
        ));
        assert(parts.first() == layer_roots(layers.last()));
    } else {
        assert(stack_roots(layers) =~= parts.flatten());
    }
}

// The directories that are visited.

/// Whether an entry has a text for a name that does not begin with a dot.
pub open spec fn is_shown(entry: EntryView) -> bool {
    entry.name matches Some(name) && !(name.len() > 0 && name[0] == '.')
}

/// Whether an entry is a directory to enter.
pub open spec fn is_open_dir(entry: EntryView) -> bool {
    is_shown(entry) && entry.file_type == Some(EntryType::Dir)
}

/// Whether an entry is a file called `SKILL.md`.
pub open spec fn is_skill_md(entry: EntryView) -> bool {
    entry.name == Some("SKILL.md"@) && entry.file_type == Some(EntryType::File)
}

/// The path of an entry of this directory.
pub open spec fn path_of(dir: PathView, entry: EntryView) -> PathView {
    dir.push(encode_utf8(entry.name->0))
}

/// The paths of those entries of a directory that pass a test, in the order in which they are
/// listed.
pub open spec fn chosen_paths(
    dir: PathView,
    entries: Seq<EntryView>,
    test: spec_fn(EntryView) -> bool,
) -> Seq<PathView> {
    entries.filter(test).map_values(|entry: EntryView| path_of(dir, entry))
}

/// The paths of those entries of these directories that pass a test, one directory after the
/// other. A directory that cannot be listed has none.
pub open spec fn chosen_in_turn(
    disk: Disk,
    dirs: Seq<PathView>,
    test: spec_fn(EntryView) -> bool,
) -> Seq<PathView> {
    Seq::new(
        dirs.len(),
        |i: int|
            match (disk.entries)(dirs[i]) {
                Some(entries) => chosen_paths(dirs[i], entries, test),
                None => seq![],
            },
    ).flatten()
}

/// The test for directories to enter.
pub open spec fn open_dirs() -> spec_fn(EntryView) -> bool {
    |entry: EntryView| is_open_dir(entry)
}

/// The test for skill files.
pub open spec fn skill_mds() -> spec_fn(EntryView) -> bool {
    |entry: EntryView| is_skill_md(entry)
}

proof fn lemma_chosen_front(
    dir: PathView,
    entries: Seq<EntryView>,
    test: spec_fn(EntryView) -> bool,
)
    requires
        entries.len() > 0,
    ensures
        chosen_paths(dir, entries, test) == if test(entries[0]) {
            seq![path_of(dir, entries[0])] + chosen_paths(dir, entries.drop_first(), test)
        } else {
            chosen_paths(dir, entries.drop_first(), test)
        },
{
    let one = seq![entries[0]];
    let rest = entries.drop_first();
    assert(entries =~= one + rest);
    Seq::filter_distributes_over_add(one, rest, test);
    assert(one.filter(test) =~= if test(entries[0]) {
        one
    } else {
        seq![]
    }) by {
        reveal(Seq::filter);
        assert(one.drop_last() =~= Seq::<EntryView>::empty());
        assert(one.drop_last().filter(test) =~= Seq::<EntryView>::empty());
    }
    if test(entries[0]) {
        assert(chosen_paths(dir, entries, test) =~= seq![path_of(dir, entries[0])] + chosen_paths(
            dir,
            rest,
            test,
        ));
    } else {
        assert(chosen_paths(dir, entries, test) =~= chosen_paths(dir, rest, test));
    }
}

/// An entry is entered exactly if it is a directory whose name is a text that does not begin
/// with a dot, and read exactly if it is a file called `SKILL.md`: names of any length count.
pub proof fn law_entries_are_judged_by_name_and_type(dir: PathView, entries: Seq<EntryView>)
    ensures
        subdirs_among(dir, entries) == chosen_paths(dir, entries, open_dirs()),
        skill_files_among(dir, entries) == chosen_paths(dir, entries, skill_mds()),
    decreases entries.len(),
{
    reveal_strlit("SKILL.md");
    if entries.len() > 0 {
        law_entries_are_judged_by_name_and_type(dir, entries.drop_first());
        lemma_chosen_front(dir, entries, open_dirs());
        lemma_chosen_front(dir, entries, skill_mds());
        let entry = entries[0];
        assert(open_dirs()(entry) == (role(entry) is Subdir));
        assert(skill_mds()(entry) == (role(entry) is SkillFile));
    } else {
        reveal(Seq::filter);
        assert(subdirs_among(dir, entries) =~= chosen_paths(dir, entries, open_dirs()));
        assert(skill_files_among(dir, entries) =~= chosen_paths(dir, entries, skill_mds()));
    }
}

proof fn lemma_chosen_in_turn_front(
    disk: Disk,
    dirs: Seq<PathView>,
    test: spec_fn(EntryView) -> bool,
)
    requires
        dirs.len() > 0,
    ensures
        chosen_in_turn(disk, dirs, test) == chosen_paths(dirs[0], listing(disk, dirs[0]), test)
            + chosen_in_turn(disk, dirs.drop_first(), test),
{
    let rest = dirs.drop_first();
    let parts = Seq::new(
        dirs.len(),
        |i: int|
            match (disk.entries)(dirs[i]) {
                Some(entries) => chosen_paths(dirs[i], entries, test),
                None => seq![],
            },
    );
    assert(parts.drop_first() =~= Seq::new(
        rest.len(),
        |i: int|
            match (disk.entries)(rest[i]) {
                Some(entries) => chosen_paths(rest[i], entries, test),
                None => seq![],
            },
    ));
    reveal(Seq::filter);
    assert(parts.first() =~= chosen_paths(dirs[0], listing(disk, dirs[0]), test));
}

proof fn lemma_walk_in_turn(disk: Disk, queue: Seq<PathView>, dirs: Seq<PathView>)
    requires
        breadth_first(disk, queue, dirs),
    ensures
        dirs == queue + chosen_in_turn(disk, dirs, open_dirs()),
    decreases dirs.len(),
{
    if dirs.len() == 0 {
        assert(chosen_in_turn(disk, dirs, open_dirs()) =~= Seq::<PathView>::empty());
        assert(dirs =~= queue + chosen_in_turn(disk, dirs, open_dirs()));
    } else {
        let entries = listing(disk, dirs[0]);
        let rest = dirs.drop_first();
        let subdirs = subdirs_among(dirs[0], entries);
        law_entries_are_judged_by_name_and_type(dirs[0], entries);
        lemma_walk_in_turn(disk, queue.drop_first() + subdirs, rest);
        lemma_chosen_in_turn_front(disk, dirs, open_dirs());
        assert(dirs =~= seq![dirs[0]] + rest);
        assert(queue =~= seq![dirs[0]] + queue.drop_first());
        assert(dirs =~= queue + chosen_in_turn(disk, dirs, open_dirs()));
    }
}

/// Under a root whose canonical path is a directory, that path is visited, and then the
/// directories to enter in each directory that is visited, in turn: all of them and no others.
/// Under any other root nothing is visited.
pub proof fn law_walk_is_root_and_what_lies_below(
    disk: Disk,
    root: RootView,
    dirs: Seq<PathView>,
)
    requires
        visits(disk, root, dirs),
    ensures
        match (disk.canonical)(root.path) {
            Some(path) => if (disk.is_dir)(path) {
                dirs == seq![path] + chosen_in_turn(disk, dirs, open_dirs())
            } else {
                dirs.len() == 0
            },
            None => dirs.len() == 0,
        },
{
    if let Some(path) = (disk.canonical)(root.path) {
        if (disk.is_dir)(path) {
            lemma_walk_in_turn(disk, seq![path], dirs);
        }
    }
}

proof fn lemma_flatten_contains<A>(parts: Seq<Seq<A>>, i: int, k: int)
    requires
        0 <= i < parts.len(),
        0 <= k < parts[i].len(),
    ensures
        parts.flatten().contains(parts[i][k]),
    decreases parts.len(),
{
    let rest = parts.drop_first();
    if i == 0 {
        assert(parts.flatten()[k] == parts[i][k]);
    } else {
        lemma_flatten_contains(rest, i - 1, k);
        let at = choose|at: int| 0 <= at < rest.flatten().len() && rest.flatten()[at]
            == rest[i - 1][k];
        assert(parts.flatten()[parts[0].len() + at] == parts[i][k]);
    }
}

proof fn lemma_chosen_contains(
    disk: Disk,
    dirs: Seq<PathView>,
    test: spec_fn(EntryView) -> bool,
    i: int,
    entries: Seq<EntryView>,
    k: int,
)
    requires
        0 <= i < dirs.len(),
        (disk.entries)(dirs[i]) == Some(entries),
        0 <= k < entries.len(),
        test(entries[k]),
    ensures
        chosen_in_turn(disk, dirs, test).contains(path_of(dirs[i], entries[k])),
{
    let parts = Seq::new(
        dirs.len(),
        |i: int|
            match (disk.entries)(dirs[i]) {
                Some(entries) => chosen_paths(dirs[i], entries, test),
                None => seq![],
            },
    );
    entries.lemma_filter_contains(test, k);
    let picked = entries.filter(test);
    let at = choose|at: int| 0 <= at < picked.len() && picked[at] == entries[k];
    assert(parts[i] == chosen_paths(dirs[i], entries, test));
    assert(parts[i][at] == path_of(dirs[i], entries[k]));
    lemma_flatten_contains(parts, i, at);
}

/// Every directory that is listed in a directory that is visited is visited too, if its name
/// does not begin with a dot.
pub proof fn law_every_directory_is_entered(
    disk: Disk,
    root: RootView,
    dirs: Seq<PathView>,
    i: int,
    entries: Seq<EntryView>,
    k: int,
    name: Seq<char>,
)
    requires
        visits(disk, root, dirs),
        0 <= i < dirs.len(),
        (disk.entries)(dirs[i]) == Some(entries),
        0 <= k < entries.len(),
        entries[k].name == Some(name),
        entries[k].file_type == Some(EntryType::Dir),
        name.len() > 0 ==> name[0] != '.',
    ensures
        dirs.contains(dirs[i].push(encode_utf8(name))),
{
    law_walk_is_root_and_what_lies_below(disk, root, dirs);
    lemma_chosen_contains(disk, dirs, open_dirs(), i, entries, k);
    let below = chosen_in_turn(disk, dirs, open_dirs());
    let path = dirs[i].push(encode_utf8(name));
    let at = choose|at: int| 0 <= at < below.len() && below[at] == path;
    assert(dirs[1 + at] == path);
}

/// Directories closer to the root are visited before those further down.
pub proof fn law_closer_directories_come_first(
    disk: Disk,
    root: RootView,
    dirs: Seq<PathView>,
    i: int,
    j: int,
)
    requires
        visits(disk, root, dirs),
        0 <= i <= j < dirs.len(),
    ensures
        dirs[i].len() <= dirs[j].len(),
{
    let path = (disk.canonical)(root.path)->0;
    lemma_depths(disk, seq![path], dirs, path.len() as int, i, j);
}

/// Whether the paths have `depth` components or one more, those with fewer first.
spec fn graded(paths: Seq<PathView>, depth: int) -> bool {
    &&& forall|i: int|
        0 <= i < paths.len() ==> depth <= (#[trigger] paths[i]).len() <= depth + 1
    &&& forall|i: int, j: int|
        0 <= i <= j < paths.len() ==> (#[trigger] paths[i]).len() <= (#[trigger] paths[j]).len()
}

proof fn lemma_depths(
    disk: Disk,
    queue: Seq<PathView>,
    dirs: Seq<PathView>,
    depth: int,
    i: int,
    j: int,
)
    requires
        breadth_first(disk, queue, dirs),
        graded(queue, depth),
        0 <= i <= j < dirs.len(),
    ensures
        dirs[i].len() <= dirs[j].len(),
        depth <= dirs[i].len(),
    decreases dirs.len(),
{
    let dir = dirs[0];
    let entries = listing(disk, dir);
    let subdirs = subdirs_among(dir, entries);
    let rest = queue.drop_first();
    let longer = rest + subdirs;
    law_entries_are_judged_by_name_and_type(dir, entries);
    assert forall|k: int| 0 <= k < longer.len() implies dir.len() <= (#[trigger] longer[k]).len()
        <= dir.len() + 1 by {
        if k < rest.len() {
            assert(longer[k] == queue[k + 1]);
            assert(queue[0].len() <= queue[k + 1].len());
        } else {
            assert(longer[k] == subdirs[k - rest.len()]);
        }
    }
    assert forall|a: int, b: int| 0 <= a <= b < longer.len() implies (#[trigger] longer[a]).len()
        <= (#[trigger] longer[b]).len() by {
        if b < rest.len() {
            assert(longer[a] == queue[a + 1] && longer[b] == queue[b + 1]);
        } else {
            assert(longer[b] == subdirs[b - rest.len()]);
        }
    }
    assert(graded(longer, dir.len() as int));
    assert(depth <= queue[0].len());
    if j > 0 {
        let a = if i > 0 {
            i - 1
        } else {
            0
        };
        lemma_depths(disk, longer, dirs.drop_first(), dir.len() as int, a, j - 1);
        lemma_depths(disk, longer, dirs.drop_first(), dir.len() as int, j - 1, j - 1);
    }
}

// The files that are read.

/// The skill files of the directories that are visited are read in turn: every file called
/// `SKILL.md`, and no other.
pub proof fn law_skill_files_are_read_in_turn(disk: Disk, dirs: Seq<PathView>)
    ensures
        skill_files(disk, dirs) == chosen_in_turn(disk, dirs, skill_mds()),
    decreases dirs.len(),
{
    if dirs.len() > 0 {
        law_skill_files_are_read_in_turn(disk, dirs.drop_first());
        law_entries_are_judged_by_name_and_type(dirs[0], listing(disk, dirs[0]));
        lemma_chosen_in_turn_front(disk, dirs, skill_mds());
    } else {
        assert(chosen_in_turn(disk, dirs, skill_mds()) =~= skill_files(disk, dirs));
    }
}

proof fn lemma_found_from_parts(disk: Disk, scope: SkillScope, files: Seq<PathView>)
    ensures
        found_from(disk, scope, files).skills == Seq::new(
            files.len(),
            |k: int| found_at(disk, scope, files[k]).skills,
        ).flatten(),
        found_from(disk, scope, files).errors == Seq::new(
            files.len(),
            |k: int| found_at(disk, scope, files[k]).errors,
        ).flatten(),
    decreases files.len(),
{
    let skills = Seq::new(files.len(), |k: int| found_at(disk, scope, files[k]).skills);
    let errors = Seq::new(files.len(), |k: int| found_at(disk, scope, files[k]).errors);
    if files.len() > 0 {
        let rest = files.drop_first();
        lemma_found_from_parts(disk, scope, rest);
        assert(skills.drop_first() =~= Seq::new(
            rest.len(),
            |k: int| found_at(disk, scope, rest[k]).skills,
        ));
        assert(errors.drop_first() =~= Seq::new(
            rest.len(),
            |k: int| found_at(disk, scope, rest[k]).errors,
        ));
    } else {
        assert(found_from(disk, scope, files).skills =~= skills.flatten());
        assert(found_from(disk, scope, files).errors =~= errors.flatten());
    }
}

/// What is found in the directories is what each of their skill files gives, one after the
/// other.
pub proof fn law_every_file_adds_what_it_gives(disk: Disk, scope: SkillScope, dirs: Seq<PathView>)
    ensures
        ({
            let files = chosen_in_turn(disk, dirs, skill_mds());
            let found = found_in(disk, scope, dirs);
            &&& found.skills == Seq::new(
                files.len(),
                |k: int| found_at(disk, scope, files[k]).skills,
            ).flatten()
            &&& found.errors == Seq::new(
                files.len(),
                |k: int| found_at(disk, scope, files[k]).errors,
            ).flatten()
        }),
{
    law_only_skill_files_count(disk, scope, dirs);
    law_skill_files_are_read_in_turn(disk, dirs);
    lemma_found_from_parts(disk, scope, chosen_in_turn(disk, dirs, skill_mds()));
}

/// What is found under all roots is what is found under each, one after the other.
pub proof fn law_every_root_adds_what_it_holds(
    disk: Disk,
    roots: Seq<RootView>,
    walks: Seq<Seq<PathView>>,
)
    requires
        walks.len() == roots.len(),
    ensures
        all_found(disk, roots, walks).skills == Seq::new(
            roots.len(),
            |r: int| found_in(disk, roots[r].scope, walks[r]).skills,
        ).flatten(),
        all_found(disk, roots, walks).errors == Seq::new(
            roots.len(),
            |r: int| found_in(disk, roots[r].scope, walks[r]).errors,
        ).flatten(),
    decreases roots.len(),
{
    let skills = Seq::new(
        roots.len(),
        |r: int| found_in(disk, roots[r].scope, walks[r]).skills,
    );
    let errors = Seq::new(
        roots.len(),
        |r: int| found_in(disk, roots[r].scope, walks[r]).errors,
    );
    if roots.len() > 0 {
        let rest = roots.drop_first();
        let others = walks.drop_first();
        law_every_root_adds_what_it_holds(disk, rest, others);
        assert(skills.drop_first() =~= Seq::new(
            rest.len(),
            |r: int| found_in(disk, rest[r].scope, others[r]).skills,
        ));
        assert(errors.drop_first() =~= Seq::new(
            rest.len(),
            |r: int| found_in(disk, rest[r].scope, others[r]).errors,
        ));
    } else {
        assert(all_found(disk, roots, walks).skills =~= skills.flatten());
        assert(all_found(disk, roots, walks).errors =~= errors.flatten());
    }
}

/// Every `SKILL.md` in a directory that is visited is read: its skill is among those that are
/// found, and its failure among those that are reported, except for the embedded skills.
pub proof fn law_every_skill_file_is_read(
    disk: Disk,
    scope: SkillScope,
    dirs: Seq<PathView>,
    i: int,
    entries: Seq<EntryView>,
    k: int,
)
    requires
        0 <= i < dirs.len(),
        (disk.entries)(dirs[i]) == Some(entries),
        0 <= k < entries.len(),
        entries[k].name == Some("SKILL.md"@),
        entries[k].file_type == Some(EntryType::File),
    ensures
        match skill_file(disk, scope, dirs[i].push(encode_utf8("SKILL.md"@))) {
            Ok(skill) => found_in(disk, scope, dirs).skills.contains(skill),
            Err(failure) => scope != SkillScope::System ==> found_in(
                disk,
                scope,
                dirs,
            ).errors.contains(
                ErrorView {
                    path: dirs[i].push(encode_utf8("SKILL.md"@)),
                    message: failure.message(),
                },
            ),
        },
{
    let files = chosen_in_turn(disk, dirs, skill_mds());
    let file = dirs[i].push(encode_utf8("SKILL.md"@));
    let skills = Seq::new(files.len(), |k: int| found_at(disk, scope, files[k]).skills);
    let errors = Seq::new(files.len(), |k: int| found_at(disk, scope, files[k]).errors);
    law_every_file_adds_what_it_gives(disk, scope, dirs);
    lemma_chosen_contains(disk, dirs, skill_mds(), i, entries, k);
    let at = choose|at: int| 0 <= at < files.len() && files[at] == file;
    match skill_file(disk, scope, file) {
        Ok(skill) => {
            assert(skills[at][0] == skill);
            lemma_flatten_contains(skills, at, 0);
        },
        Err(failure) => {
            if scope != SkillScope::System {
                assert(errors[at][0] == (ErrorView { path: file, message: failure.message() }));
                lemma_flatten_contains(errors, at, 0);
            }
        },
    }
}

// What a file gives.

/// A file whose frontmatter is accepted gives one skill, whatever the scope: with the name, the
/// description and the short description of the frontmatter, each on a single line, the scope
/// of its root, and its canonical path where it has one.
pub proof fn law_skill_has_what_its_file_says(
    disk: Disk,
    scope: SkillScope,
    file: PathView,
    text: Seq<char>,
    yaml: Seq<char>,
    raw: SkillText,
)
    requires
        (disk.contents)(file) == Ok::<Seq<char>, Seq<char>>(text),
        yaml_source(text) == Some(yaml),
        (disk.yaml)(yaml) == Ok::<SkillText, Seq<char>>(raw),
        fits(single_line(raw.name), 64),
        fits(single_line(raw.description), 1024),
        raw.short_description matches Some(short) ==> single_line(short).len() <= 1024,
    ensures
        ({
            let found = found_at(disk, scope, file);
            &&& found.errors.len() == 0
            &&& found.skills.len() == 1
            &&& found.skills[0].name == single_line(raw.name)
            &&& found.skills[0].description == single_line(raw.description)
            &&& found.skills[0].short_description == match raw.short_description {
                Some(short) => if has_word(short) {
                    Some(single_line(short))
                } else {
                    None
                },
                None => None,
            }
            &&& found.skills[0].scope == scope
            &&& found.skills[0].path == match (disk.canonical)(file) {
                Some(path) => path,
                None => file,
            }
        }),
{
    law_fields_are_the_given_ones(raw);
}

/// A file that gives no skill gives one failure with its own path, and what is wrong with it;
/// among the embedded skills it gives nothing.
pub proof fn law_failure_says_what_is_wrong(disk: Disk, scope: SkillScope, file: PathView)
    ensures
        ({
            let found = found_at(disk, scope, file);
            let failed = |message: Seq<char>|
                {
                    &&& found.skills.len() == 0
                    &&& found.errors == if scope == SkillScope::System {
                        seq![]
                    } else {
                        seq![ErrorView { path: file, message }]
                    }
                };
            match (disk.contents)(file) {
                Err(reason) => failed("failed to read file: "@ + reason),
                Ok(text) => match yaml_source(text) {
                    None => failed("missing YAML frontmatter delimited by ---"@),
                    Some(yaml) => match (disk.yaml)(yaml) {
                        Err(reason) => failed("invalid YAML: "@ + reason),
                        Ok(raw) => checked_fields(raw) matches Err(failure) ==> failed(
                            failure.message(),
                        ),
                    },
                },
            }
        }),
{
    let found = found_at(disk, scope, file);
    if let Err(failure) = skill_file(disk, scope, file) {
        assert(found.errors =~= if scope == SkillScope::System {
            seq![]
        } else {
            seq![ErrorView { path: file, message: failure.message() }]
        });
    }
}

/// A reply that does not fit the request changes nothing.
pub proof fn law_stray_replies_change_nothing(loader: LoaderView, reply: ReplyView)
    requires
        match wanted(loader) {
            RequestView::Resolve(_) => !(reply is Resolved),
            RequestView::CheckDir(_) => !(reply is IsDir),
            RequestView::ListDir(_) => !(reply is Entries),
            RequestView::ReadFile(_) => !(reply is Contents),
            RequestView::ParseYaml(_) => !(reply is Parsed),
            RequestView::Finished => true,
        },
    ensures
        step(loader, reply) == loader,
{
}

// The skills that come out.

/// The skills that come out are those that were found before any other of their name, all of
/// them and no others.
pub proof fn law_first_of_each_name_comes_out(
    found: Seq<SkillView>,
    skills: Seq<SkillView>,
    skill: SkillView,
)
    requires
        merged(found, skills),
    ensures
        skills.contains(skill) <==> exists|k: int|
            {
                &&& 0 <= k < found.len()
                &&& #[trigger] found[k] == skill
                &&& forall|j: int| 0 <= j < k ==> (#[trigger] found[j]).name != skill.name
            },
{
    if skills.contains(skill) {
        let i = choose|i: int| 0 <= i < skills.len() && skills[i] == skill;
        assert(kept(found, skills[i]));
        let k = choose|k: int| #[trigger] first_of_name(found, k) && found[k] == skills[i];
        assert(found[k] == skill);
    }
    assert forall|k: int|
        {
            &&& 0 <= k < found.len()
            &&& #[trigger] found[k] == skill
            &&& forall|j: int| 0 <= j < k ==> (#[trigger] found[j]).name != skill.name
        } implies skills.contains(skill) by {
        assert(first_of_name(found, k));
    }
}

/// When a search is over, every `SKILL.md` that gives a skill, in a directory to visit under any
/// of the roots, has its name among the skills that are loaded.
pub proof fn law_every_skill_on_disk_is_loaded(
    disk: Disk,
    roots: Seq<RootView>,
    n: nat,
    skills: Seq<SkillView>,
    walks: Seq<Seq<PathView>>,
    r: int,
    i: int,
    entries: Seq<EntryView>,
    k: int,
    skill: SkillView,
) -> (j: int)
    requires
        after(disk, start(roots), n).stage is Done,
        merged(after(disk, start(roots), n).found.skills, skills),
        visits_all(disk, roots, walks),
        0 <= r < roots.len(),
        0 <= i < walks[r].len(),
        (disk.entries)(walks[r][i]) == Some(entries),
        0 <= k < entries.len(),
        entries[k].name == Some("SKILL.md"@),
        entries[k].file_type == Some(EntryType::File),
        skill_file(disk, roots[r].scope, walks[r][i].push(encode_utf8("SKILL.md"@))) == Ok::<
            SkillView,
            ParseFailure,
        >(skill),
    ensures
        0 <= j < skills.len(),
        skills[j].name == skill.name,
{
    let visited = law_finished_search_is_complete(disk, roots, n);
    lemma_walks_are_determined(disk, roots, visited, walks);
    law_every_skill_file_is_read(disk, roots[r].scope, walks[r], i, entries, k);
    law_every_root_adds_what_it_holds(disk, roots, walks);
    let parts = Seq::new(
        roots.len(),
        |r: int| found_in(disk, roots[r].scope, walks[r]).skills,
    );
    let at = choose|at: int| 0 <= at < parts[r].len() && parts[r][at] == skill;
    lemma_flatten_contains(parts, r, at);
    let found = after(disk, start(roots), n).found.skills;
    let place = choose|place: int| 0 <= place < found.len() && found[place] == skill;
    law_no_name_is_lost(found, skills, place)
}

/// No skill comes out before one of a scope that goes first: the repository's skills go before
/// all others, the user's before the embedded ones, and the administrator's last.
pub proof fn law_scopes_come_out_in_order(
    found: Seq<SkillView>,
    skills: Seq<SkillView>,
    i: int,
    j: int,
)
    requires
        merged(found, skills),
        0 <= i < j < skills.len(),
    ensures
        skills[j].scope == SkillScope::Repo ==> skills[i].scope == SkillScope::Repo,
        skills[i].scope == SkillScope::Admin ==> skills[j].scope == SkillScope::Admin,
        skills[j].scope == SkillScope::User ==> skills[i].scope != SkillScope::System,
        skills[i].scope == skills[j].scope ==> differs_upward(skills[i].name, skills[j].name),
{
    assert(precedes(skills[i], skills[j]));
    law_texts_are_ordered_by_first_difference(skills[i].name, skills[j].name);
}

/// Whether two texts agree up to some place at which `a` ends or has the lesser character.
pub open spec fn differs_upward(a: Seq<char>, b: Seq<char>) -> bool {
    exists|k: int| #[trigger] agree_up_to(a, b, k) && k < b.len() && (k == a.len() || a[k] < b[k])
}

/// Whether two texts have the same first `k` characters.
pub open spec fn agree_up_to(a: Seq<char>, b: Seq<char>, k: int) -> bool {
    &&& 0 <= k <= a.len()
    &&& k <= b.len()
    &&& forall|i: int| 0 <= i < k ==> a[i] == b[i]
}

/// Texts are ordered by the first character in which they differ, however far behind it
/// stands.
pub proof fn law_texts_are_ordered_by_first_difference(a: Seq<char>, b: Seq<char>)
    ensures
        text_less(a, b) <==> differs_upward(a, b),
    decreases a.len(),
{
    if a.len() > 0 && b.len() > 0 && a[0] == b[0] {
        let x = a.drop_first();
        let y = b.drop_first();
        law_texts_are_ordered_by_first_difference(x, y);
        if differs_upward(x, y) {
            let k = choose|k: int| #[trigger]
                agree_up_to(x, y, k) && k < y.len() && (k == x.len() || x[k] < y[k]);
            assert forall|i: int| 0 <= i < k + 1 implies a[i] == b[i] by {
                if i > 0 {
                    assert(a[i] == x[i - 1] && b[i] == y[i - 1]);
                }
            }
            assert(agree_up_to(a, b, k + 1));
        }
        if differs_upward(a, b) {
            let k = choose|k: int| #[trigger]
                agree_up_to(a, b, k) && k < b.len() && (k == a.len() || a[k] < b[k]);
            assert(k > 0);
            assert forall|i: int| 0 <= i < k - 1 implies x[i] == y[i] by {
                assert(x[i] == a[i + 1] && y[i] == b[i + 1]);
            }
            assert(agree_up_to(x, y, k - 1));
        }
    } else {
        assert(b.len() > 0 ==> agree_up_to(a, b, 0));
        if differs_upward(a, b) {
            let k = choose|k: int| #[trigger]
                agree_up_to(a, b, k) && k < b.len() && (k == a.len() || a[k] < b[k]);
            assert(k == 0);
        }
    }
}

} // verus!
