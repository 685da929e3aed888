//! The search for skills, as a machine that asks for what only the outside can tell.
//!
//! A [`Loader`] walks through the directories of its roots, breadth first, and reads the skill
//! files in them. It touches no file itself: [`Loader::request`] says what it needs to know,
//! and [`Loader::resume`] goes on with the reply. When nothing is left to ask,
//! [`Loader::outcome`] gives the skills and the failures.
use std::collections::VecDeque;
use vstd::prelude::*;

use crate::config::{skill_roots, Config};
use crate::frontmatter::{
    frontmatter_source, skill_fields, SkillFields, SkillFrontmatter, SkillParseError,
};
use crate::merge::merge_skills;
use crate::model::{
    SkillError, SkillLoadOutcome, SkillMetadata, SkillPath, SkillRoot, SkillScope,
};
use crate::text::{chars_of, same_chars};

verus! {

use crate::config::stack_roots;
use crate::frontmatter::{checked_fields, text_of, yaml_source, ParseFailure, SkillText};
use crate::merge::merged;
use crate::model::{
    child, error_views, root_views, skill_views, ErrorView, PathView, RootView, SkillView,
};

/// The name of a skill file.
pub const SKILLS_FILENAME: &'static str = "SKILL.md";

/// What an entry of a directory is.
#[derive(Debug, Clone, Copy, PartialEq, Eq, Structural)]
pub enum EntryType {
    File,
    Dir,
    Symlink,
    Other,
}

/// An entry of a directory.
#[derive(Debug, PartialEq, Eq)]
pub struct DirEntry {
    /// The name, unless it is no Unicode text.
    pub name: Option<String>,
    /// What the entry is, unless that cannot be told.
    pub file_type: Option<EntryType>,
}

/// What a loader needs to know next.
#[derive(Debug, PartialEq, Eq)]
pub enum Request {
    /// The canonical form of a path.
    Resolve(SkillPath),
    /// Whether a path is a directory.
    CheckDir(SkillPath),
    /// The entries of a directory.
    ListDir(SkillPath),
    /// The text of a file.
    ReadFile(SkillPath),
    /// The frontmatter that a YAML text gives.
    ParseYaml(String),
    /// Nothing: the search is over.
    Finished,
}

/// What a loader is told.
#[derive(Debug, PartialEq, Eq)]
pub enum Reply {
    /// The canonical form of the path, if it has one.
    Resolved(Option<SkillPath>),
    /// Whether the path is a directory.
    IsDir(bool),
    /// The entries of the directory, if it can be read.
    Entries(Option<Vec<DirEntry>>),
    /// The text of the file, or why it cannot be read.
    Contents(Result<String, String>),
    /// The frontmatter, or what is wrong with the YAML.
    Parsed(Result<SkillFrontmatter, String>),
}

/// An entry of a directory in specifications.
pub struct EntryView {
    pub name: Option<Seq<char>>,
    pub file_type: Option<EntryType>,
}

/// A request in specifications.
pub enum RequestView {
    Resolve(PathView),
    CheckDir(PathView),
    ListDir(PathView),
    ReadFile(PathView),
    ParseYaml(Seq<char>),
    Finished,
}

/// A reply in specifications.
pub enum ReplyView {
    Resolved(Option<PathView>),
    IsDir(bool),
    Entries(Option<Seq<EntryView>>),
    Contents(Result<Seq<char>, Seq<char>>),
    Parsed(Result<SkillText, Seq<char>>),
}

impl View for DirEntry {
    type V = EntryView;

    open spec fn view(&self) -> EntryView {
        EntryView { name: text_of(self.name), file_type: self.file_type }
    }
}

/// The views of a list of entries.
pub open spec fn entry_views(entries: Seq<DirEntry>) -> Seq<EntryView> {
    Seq::new(entries.len(), |i: int| entries[i]@)
}

/// The views of a list of paths.
pub open spec fn path_views(paths: Seq<SkillPath>) -> Seq<PathView> {
    Seq::new(paths.len(), |i: int| paths[i]@)
}

impl View for Request {
    type V = RequestView;

    open spec fn view(&self) -> RequestView {
        match self {
            Request::Resolve(path) => RequestView::Resolve(path@),
            Request::CheckDir(path) => RequestView::CheckDir(path@),
            Request::ListDir(path) => RequestView::ListDir(path@),
            Request::ReadFile(path) => RequestView::ReadFile(path@),
            Request::ParseYaml(yaml) => RequestView::ParseYaml(yaml@),
            Request::Finished => RequestView::Finished,
        }
    }
}

impl View for Reply {
    type V = ReplyView;

    open spec fn view(&self) -> ReplyView {
        match self {
            Reply::Resolved(Some(path)) => ReplyView::Resolved(Some(path@)),
            Reply::Resolved(None) => ReplyView::Resolved(None),
            Reply::IsDir(is_dir) => ReplyView::IsDir(*is_dir),
            Reply::Entries(Some(entries)) => ReplyView::Entries(Some(entry_views(entries@))),
            Reply::Entries(None) => ReplyView::Entries(None),
            Reply::Contents(Ok(text)) => ReplyView::Contents(Ok(text@)),
            Reply::Contents(Err(reason)) => ReplyView::Contents(Err(reason@)),
            Reply::Parsed(Ok(parsed)) => ReplyView::Parsed(Ok(parsed@)),
            Reply::Parsed(Err(reason)) => ReplyView::Parsed(Err(reason@)),
        }
    }
}

/// What an entry of a directory means to the search.
pub enum EntryRole {
    Skipped,
    Subdir,
    SkillFile,
}

/// What an entry means to the search. Entries without a text for a name, hidden ones, symbolic
/// links and those of unknown type are skipped; of the files only those called `SKILL.md`
/// count.
pub open spec fn role(entry: EntryView) -> EntryRole {
    match (entry.name, entry.file_type) {
        (Some(name), Some(file_type)) => if name.len() > 0 && name[0] == '.' {
            EntryRole::Skipped
        } else if file_type == EntryType::Dir {
            EntryRole::Subdir
        } else if file_type == EntryType::File && name == SKILLS_FILENAME@ {
            EntryRole::SkillFile
        } else {
            EntryRole::Skipped
        },
        _ => EntryRole::Skipped,
    }
}

/// What was found so far, in the order in which it was found.
pub struct Found {
    pub skills: Seq<SkillView>,
    pub errors: Seq<ErrorView>,
}

/// The directories that are still to be listed, under a root with this scope.
pub struct WalkView {
    pub scope: SkillScope,
    pub queue: Seq<PathView>,
}

/// The entries of a directory that are still to be looked at.
pub struct ScanView {
    pub dir: PathView,
    pub entries: Seq<EntryView>,
    pub walk: WalkView,
}

/// Where the search stands.
pub enum StageView {
    ResolveRoot(RootView),
    CheckRoot(RootView),
    List { dir: PathView, walk: WalkView },
    Read { file: PathView, scan: ScanView },
    Parse { file: PathView, yaml: Seq<char>, scan: ScanView },
    ResolveFile { file: PathView, fields: SkillText, scan: ScanView },
    Done,
}

/// A loader in specifications: where it stands, the roots after the present one, and what it
/// has found.
pub struct LoaderView {
    pub stage: StageView,
    pub roots: Seq<RootView>,
    pub found: Found,
}

impl Found {
    /// Nothing found.
    pub open spec fn nothing() -> Found {
        Found { skills: seq![], errors: seq![] }
    }

    /// One skill more.
    pub open spec fn with_skill(self, skill: SkillView) -> Found {
        Found { skills: self.skills.push(skill), errors: self.errors }
    }

    /// One failure more. Failures in the embedded skills are not reported.
    pub open spec fn with_failure(
        self,
        scope: SkillScope,
        file: PathView,
        failure: ParseFailure,
    ) -> Found {
        if scope == SkillScope::System {
            self
        } else {
            Found {
                skills: self.skills,
                errors: self.errors.push(ErrorView { path: file, message: failure.message() }),
            }
        }
    }
}

/// The skill of a file with these fields. Its path is the canonical one where there is one.
pub open spec fn skill_of(
    fields: SkillText,
    scope: SkillScope,
    file: PathView,
    resolved: Option<PathView>,
) -> SkillView {
    SkillView {
        name: fields.name,
        description: fields.description,
        short_description: fields.short_description,
        path: match resolved {
            Some(path) => path,
            None => file,
        },
        scope,
    }
}

/// Goes on with the next root, if one is left.
pub open spec fn next_root(roots: Seq<RootView>, found: Found) -> LoaderView {
    if roots.len() == 0 {
        LoaderView { stage: StageView::Done, roots, found }
    } else {
        LoaderView { stage: StageView::ResolveRoot(roots[0]), roots: roots.drop_first(), found }
    }
}

/// Goes on with the directory that has waited longest, if one is left under this root.
pub open spec fn next_dir(walk: WalkView, roots: Seq<RootView>, found: Found) -> LoaderView {
    if walk.queue.len() == 0 {
        next_root(roots, found)
    } else {
        LoaderView {
            stage: StageView::List {
                dir: walk.queue[0],
                walk: WalkView { scope: walk.scope, queue: walk.queue.drop_first() },
            },
            roots,
            found,
        }
    }
}

/// Goes on with the next skill file among the entries, if one is left in this directory.
/// Subdirectories on the way are to be listed later.
pub open spec fn next_entry(scan: ScanView, roots: Seq<RootView>, found: Found) -> LoaderView
    decreases scan.entries.len(),
{
    if scan.entries.len() == 0 {
        next_dir(scan.walk, roots, found)
    } else {
        let entry = scan.entries[0];
        let rest = ScanView {
            dir: scan.dir,
            entries: scan.entries.drop_first(),
            walk: scan.walk,
        };
        match role(entry) {
            EntryRole::Skipped => next_entry(rest, roots, found),
            EntryRole::Subdir => next_entry(
                ScanView {
                    walk: WalkView {
                        scope: scan.walk.scope,
                        queue: scan.walk.queue.push(child(scan.dir, entry.name->0)),
                    },
                    ..rest
                },
                roots,
                found,
            ),
            EntryRole::SkillFile => LoaderView {
                stage: StageView::Read { file: child(scan.dir, entry.name->0), scan: rest },
                roots,
                found,
            },
        }
    }
}

/// The loader before its first reply.
pub open spec fn start(roots: Seq<RootView>) -> LoaderView {
    next_root(roots, Found::nothing())
}

/// What a loader needs to know next.
pub open spec fn wanted(loader: LoaderView) -> RequestView {
    match loader.stage {
        StageView::ResolveRoot(root) => RequestView::Resolve(root.path),
        StageView::CheckRoot(root) => RequestView::CheckDir(root.path),
        StageView::List { dir, .. } => RequestView::ListDir(dir),
        StageView::Read { file, .. } => RequestView::ReadFile(file),
        StageView::Parse { yaml, .. } => RequestView::ParseYaml(yaml),
        StageView::ResolveFile { file, .. } => RequestView::Resolve(file),
        StageView::Done => RequestView::Finished,
    }
}

/// The loader after a reply. A reply of another kind than the request leaves it as it is.
pub open spec fn step(loader: LoaderView, reply: ReplyView) -> LoaderView {
    let roots = loader.roots;
    let found = loader.found;
    match (loader.stage, reply) {
        (StageView::ResolveRoot(root), ReplyView::Resolved(resolved)) => match resolved {
            Some(path) => LoaderView {
                stage: StageView::CheckRoot(RootView { path, scope: root.scope }),
                roots,
                found,
            },
            None => next_root(roots, found),
        },
        (StageView::CheckRoot(root), ReplyView::IsDir(is_dir)) => if is_dir {
            next_dir(WalkView { scope: root.scope, queue: seq![root.path] }, roots, found)
        } else {
            next_root(roots, found)
        },
        (StageView::List { dir, walk }, ReplyView::Entries(entries)) => match entries {
            Some(entries) => next_entry(ScanView { dir, entries, walk }, roots, found),
            None => next_dir(walk, roots, found),
        },
        (StageView::Read { file, scan }, ReplyView::Contents(contents)) => match contents {
            Ok(text) => match yaml_source(text) {
                Some(yaml) => LoaderView {
                    stage: StageView::Parse { file, yaml, scan },
                    roots,
                    found,
                },
                None => next_entry(
                    scan,
                    roots,
                    found.with_failure(scan.walk.scope, file, ParseFailure::MissingFrontmatter),
                ),
            },
            Err(reason) => next_entry(
                scan,
                roots,
                found.with_failure(scan.walk.scope, file, ParseFailure::Read(reason)),
            ),
        },
        (StageView::Parse { file, scan, .. }, ReplyView::Parsed(parsed)) => match parsed {
            Ok(text) => match checked_fields(text) {
                Ok(fields) => LoaderView {
                    stage: StageView::ResolveFile { file, fields, scan },
                    roots,
                    found,
                },
                Err(failure) => next_entry(
                    scan,
                    roots,
                    found.with_failure(scan.walk.scope, file, failure),
                ),
            },
            Err(reason) => next_entry(
                scan,
                roots,
                found.with_failure(scan.walk.scope, file, ParseFailure::InvalidYaml(reason)),
            ),
        },
        (
            StageView::ResolveFile { file, fields, scan },
            ReplyView::Resolved(resolved),
        ) => next_entry(
            scan,
            roots,
            found.with_skill(skill_of(fields, scan.walk.scope, file, resolved)),
        ),
        _ => loader,
    }
}

/// The directories that are still to be listed, under a root with this scope.
#[derive(Debug, PartialEq, Eq)]
struct Walk {
    scope: SkillScope,
    queue: VecDeque<SkillPath>,
}

/// The entries of a directory that are still to be looked at.
#[derive(Debug, PartialEq, Eq)]
struct Scan {
    dir: SkillPath,
    entries: VecDeque<DirEntry>,
    walk: Walk,
}

/// Where the search stands.
#[derive(Debug, PartialEq, Eq)]
enum Stage {
    ResolveRoot(SkillRoot),
    CheckRoot(SkillRoot),
    List { dir: SkillPath, walk: Walk },
    Read { file: SkillPath, scan: Scan },
    Parse { file: SkillPath, yaml: String, scan: Scan },
    ResolveFile { file: SkillPath, fields: SkillFields, scan: Scan },
    Done,
}

/// What was found so far, in the order in which it was found.
#[derive(Debug, PartialEq, Eq)]
struct Finds {
    skills: Vec<SkillMetadata>,
    errors: Vec<SkillError>,
}

/// A search for skills that has come to some point.
#[derive(Debug, PartialEq, Eq)]
pub struct Loader {
    stage: Stage,
    roots: VecDeque<SkillRoot>,
    found: Finds,
}

impl View for Walk {
    type V = WalkView;

    closed spec fn view(&self) -> WalkView {
        WalkView { scope: self.scope, queue: path_views(self.queue@) }
    }
}

impl View for Scan {
    type V = ScanView;

    closed spec fn view(&self) -> ScanView {
        ScanView { dir: self.dir@, entries: entry_views(self.entries@), walk: self.walk@ }
    }
}

impl View for Stage {
    type V = StageView;

    closed spec fn view(&self) -> StageView {
        match self {
            Stage::ResolveRoot(root) => StageView::ResolveRoot(root@),
            Stage::CheckRoot(root) => StageView::CheckRoot(root@),
            Stage::List { dir, walk } => StageView::List { dir: dir@, walk: walk@ },
            Stage::Read { file, scan } => StageView::Read { file: file@, scan: scan@ },
            Stage::Parse { file, yaml, scan } => StageView::Parse {
                file: file@,
                yaml: yaml@,
                scan: scan@,
            },
            Stage::ResolveFile { file, fields, scan } => StageView::ResolveFile {
                file: file@,
                fields: fields@,
                scan: scan@,
            },
            Stage::Done => StageView::Done,
        }
    }
}

impl View for Finds {
    type V = Found;

    closed spec fn view(&self) -> Found {
        Found { skills: skill_views(self.skills@), errors: error_views(self.errors@) }
    }
}

impl View for Loader {
    type V = LoaderView;

    closed spec fn view(&self) -> LoaderView {
        LoaderView {
            stage: self.stage@,
            roots: root_views(self.roots@),
            found: self.found@,
        }
    }
}

/// The items of a list, as a queue.
fn queue_of<T>(items: Vec<T>) -> (r: VecDeque<T>)
    ensures
        r@ == items@,
{
    let mut r: VecDeque<T> = VecDeque::new();
    for item in it: items
        invariant
            it.seq() == items@,
            r@ == items@.take(it.index() as int),
    {
        r.push_back(item);
    }
    r
}

impl Finds {
    /// One failure more. Failures in the embedded skills are not reported.
    fn with_failure(self, scope: SkillScope, file: SkillPath, failure: &SkillParseError) -> (r:
        Finds)
        ensures
            r@ == self@.with_failure(scope, file@, failure@),
    {
        let mut found: Finds = self;
        if scope != SkillScope::System {
            found.errors.push(SkillError { path: file, message: failure.message() });
        }
        assert(found@.errors =~= self@.with_failure(scope, file@, failure@).errors);
        found
    }

    /// One skill more.
    fn with_skill(self, skill: SkillMetadata) -> (r: Finds)
        ensures
            r@ == self@.with_skill(skill@),
    {
        let mut found: Finds = self;
        found.skills.push(skill);
        assert(found@.skills =~= self@.skills.push(skill@));
        found
    }
}

/// What an entry means to the search.
fn entry_role(entry: &DirEntry) -> (r: EntryRole)
    ensures
        r == role(entry@),
{
    let name: &String = match &entry.name {
        Some(name) => name,
        None => {
            return EntryRole::Skipped;
        },
    };
    let name: Vec<char> = chars_of(name.as_str());
    if name.len() > 0 && name[0] == '.' {
        return EntryRole::Skipped;
    }
    match entry.file_type {
        Some(EntryType::Dir) => EntryRole::Subdir,
        Some(EntryType::File) => {
            let skill_file: Vec<char> = chars_of(SKILLS_FILENAME);
            if same_chars(name.as_slice(), skill_file.as_slice()) {
                EntryRole::SkillFile
            } else {
                EntryRole::Skipped
            }
        },
        _ => EntryRole::Skipped,
    }
}

/// Goes on with the next root, if one is left.
fn to_next_root(roots: VecDeque<SkillRoot>, found: Finds) -> (r: Loader)
    ensures
        r@ == next_root(root_views(roots@), found@),
{
    let mut roots: VecDeque<SkillRoot> = roots;
    let ghost before = root_views(roots@);
    match roots.pop_front() {
        Some(root) => {
            assert(root_views(roots@) =~= before.drop_first());
            Loader { stage: Stage::ResolveRoot(root), roots, found }
        },
        None => Loader { stage: Stage::Done, roots, found },
    }
}

/// Goes on with the directory that has waited longest, if one is left under this root.
fn to_next_dir(walk: Walk, roots: VecDeque<SkillRoot>, found: Finds) -> (r: Loader)
    ensures
        r@ == next_dir(walk@, root_views(roots@), found@),
{
    let mut walk: Walk = walk;
    let ghost before = walk@.queue;
    match walk.queue.pop_front() {
        Some(dir) => {
            assert(walk@.queue =~= before.drop_first());
            Loader { stage: Stage::List { dir, walk }, roots, found }
        },
        None => to_next_root(roots, found),
    }
}

/// Goes on with the next skill file among the entries, if one is left in this directory.
fn to_next_entry(scan: Scan, roots: VecDeque<SkillRoot>, found: Finds) -> (r: Loader)
    ensures
        r@ == next_entry(scan@, root_views(roots@), found@),
{
    let mut rest: Scan = scan;
    loop
        invariant
            next_entry(scan@, root_views(roots@), found@) == next_entry(
                rest@,
                root_views(roots@),
                found@,
            ),
        decreases rest.entries@.len(),
    {
        let ghost before = rest@;
        let entry: DirEntry = match rest.entries.pop_front() {
            Some(entry) => entry,
            None => {
                return to_next_dir(rest.walk, roots, found);
            },
        };
        assert(before.entries[0] == entry@);
        assert(rest@.entries =~= before.entries.drop_first());
        match (entry_role(&entry), &entry.name) {
            (EntryRole::Subdir, Some(name)) => {
                let path: SkillPath = rest.dir.join(name.as_str());
                rest.walk.queue.push_back(path);
                assert(rest@.walk.queue =~= before.walk.queue.push(path@));
            },
            (EntryRole::SkillFile, Some(name)) => {
                let file: SkillPath = rest.dir.join(name.as_str());
                return Loader { stage: Stage::Read { file, scan: rest }, roots, found };
            },
            _ => {},
        }
    }
}

/// Starts the walk through a root that is a directory.
fn start_walk(root: SkillRoot, roots: VecDeque<SkillRoot>, found: Finds) -> (r: Loader)
    ensures
        r@ == next_dir(
            WalkView { scope: root.scope, queue: seq![root.path@] },
            root_views(roots@),
            found@,
        ),
{
    let mut queue: VecDeque<SkillPath> = VecDeque::new();
    queue.push_back(root.path);
    assert(path_views(queue@) =~= seq![root.path@]);
    to_next_dir(Walk { scope: root.scope, queue }, roots, found)
}

/// Starts the search under these roots, one after the other.
pub fn load_skills_from_roots(roots: Vec<SkillRoot>) -> (r: Loader)
    ensures
        r@ == start(root_views(roots@)),
{
    let found = Finds { skills: Vec::new(), errors: Vec::new() };
    assert(found@.skills =~= seq![]);
    assert(found@.errors =~= seq![]);
    to_next_root(queue_of(roots), found)
}

/// Starts the search for skills with this configuration.
pub fn load_skills(config: &Config) -> (r: Loader)
    ensures
        r@ == start(stack_roots(config.config_layer_stack@)),
{
    load_skills_from_roots(skill_roots(config))
}

impl Loader {
    /// What the search needs to know next.
    pub fn request(&self) -> (r: Request)
        ensures
            r@ == wanted(self@),
    {
        match &self.stage {
            Stage::ResolveRoot(root) => Request::Resolve(root.path.clone()),
            Stage::CheckRoot(root) => Request::CheckDir(root.path.clone()),
            Stage::List { dir, .. } => Request::ListDir(dir.clone()),
            Stage::Read { file, .. } => Request::ReadFile(file.clone()),
            Stage::Parse { yaml, .. } => Request::ParseYaml(yaml.clone()),
            Stage::ResolveFile { file, .. } => Request::Resolve(file.clone()),
            Stage::Done => Request::Finished,
        }
    }

    /// Goes on with the reply to the request. A reply of another kind changes nothing.
    pub fn resume(self, reply: Reply) -> (r: Loader)
        ensures
            r@ == step(self@, reply@),
    {
        let Loader { stage, roots, found } = self;
        match (stage, reply) {
            (Stage::ResolveRoot(root), Reply::Resolved(resolved)) => match resolved {
                Some(path) => {
                    let stage = Stage::CheckRoot(SkillRoot { path, scope: root.scope });
                    Loader { stage, roots, found }
                },
                None => to_next_root(roots, found),
            },
            (Stage::CheckRoot(root), Reply::IsDir(is_dir)) => if is_dir {
                start_walk(root, roots, found)
            } else {
                to_next_root(roots, found)
            },
            (Stage::List { dir, walk }, Reply::Entries(entries)) => match entries {
                Some(entries) => {
                    let scan = Scan { dir, entries: queue_of(entries), walk };
                    to_next_entry(scan, roots, found)
                },
                None => to_next_dir(walk, roots, found),
            },
            (Stage::Read { file, scan }, Reply::Contents(contents)) => match contents {
                Ok(text) => match frontmatter_source(text.as_str()) {
                    Ok(yaml) => Loader { stage: Stage::Parse { file, yaml, scan }, roots, found },
                    Err(failure) => {
                        let found: Finds = found.with_failure(scan.walk.scope, file, &failure);
                        to_next_entry(scan, roots, found)
                    },
                },
                Err(reason) => {
                    let failure = SkillParseError::Read(reason);
                    let found: Finds = found.with_failure(scan.walk.scope, file, &failure);
                    to_next_entry(scan, roots, found)
                },
            },
            (Stage::Parse { file, yaml: _, scan }, Reply::Parsed(parsed)) => match parsed {
                Ok(parsed) => match skill_fields(&parsed) {
                    Ok(fields) => Loader {
                        stage: Stage::ResolveFile { file, fields, scan },
                        roots,
                        found,
                    },
                    Err(failure) => {
                        let found: Finds = found.with_failure(scan.walk.scope, file, &failure);
                        to_next_entry(scan, roots, found)
                    },
                },
                Err(reason) => {
                    let failure = SkillParseError::InvalidYaml(reason);
                    let found: Finds = found.with_failure(scan.walk.scope, file, &failure);
                    to_next_entry(scan, roots, found)
                },
            },
            (Stage::ResolveFile { file, fields, scan }, Reply::Resolved(resolved)) => {
                let skill = SkillMetadata {
                    name: fields.name,
                    description: fields.description,
                    short_description: fields.short_description,
                    path: match resolved {
                        Some(path) => path,
                        None => file,
                    },
                    scope: scan.walk.scope,
                };
                let found: Finds = found.with_skill(skill);
                to_next_entry(scan, roots, found)
            },
            (stage, _) => Loader { stage, roots, found },
        }
    }

    /// The skills and the failures, once the search is over: of each name the skill that was
    /// found first, ordered by scope and name.
    pub fn outcome(self) -> (r: Option<SkillLoadOutcome>)
        ensures
            r is Some <==> self@.stage is Done,
            r matches Some(outcome) ==> {
                &&& merged(self@.found.skills, skill_views(outcome.skills@))
                &&& error_views(outcome.errors@) == self@.found.errors
            },
    {
        match self.stage {
            Stage::Done => Some(
                SkillLoadOutcome {
                    skills: merge_skills(self.found.skills),
                    errors: self.found.errors,
                },
            ),
            _ => None,
        }
    }
}

} // verus!
