//! Skills, their scopes and paths, and what loading them gives.
use vstd::prelude::*;

verus! {

use vstd::utf8::encode_utf8;

use crate::frontmatter::text_of;

/// Where a skill comes from.
#[derive(Debug, Clone, Copy, PartialEq, Eq, Structural)]
pub enum SkillScope {
    User,
    Repo,
    System,
    Admin,
}

/// A path of the file system, as the bytes of its components.
#[derive(Debug, PartialEq, Eq)]
pub struct SkillPath {
    pub parts: Vec<Vec<u8>>,
}

/// A skill that was found.
#[derive(Debug, PartialEq, Eq)]
pub struct SkillMetadata {
    pub name: String,
    pub description: String,
    pub short_description: Option<String>,
    pub path: SkillPath,
    pub scope: SkillScope,
}

/// A skill file that gave no skill.
#[derive(Debug, PartialEq, Eq)]
pub struct SkillError {
    pub path: SkillPath,
    pub message: String,
}

/// The skills that were loaded, and what went wrong.
#[derive(Debug, PartialEq, Eq)]
pub struct SkillLoadOutcome {
    pub skills: Vec<SkillMetadata>,
    pub errors: Vec<SkillError>,
}

/// A directory to search for skills, and the scope of the skills in it.
#[derive(Debug, PartialEq, Eq)]
pub struct SkillRoot {
    pub path: SkillPath,
    pub scope: SkillScope,
}

/// A path in specifications: the bytes of each of its components.
pub type PathView = Seq<Seq<u8>>;

/// A skill in specifications.
pub struct SkillView {
    pub name: Seq<char>,
    pub description: Seq<char>,
    pub short_description: Option<Seq<char>>,
    pub path: PathView,
    pub scope: SkillScope,
}

/// A failure in specifications.
pub struct ErrorView {
    pub path: PathView,
    pub message: Seq<char>,
}

/// A root in specifications.
pub struct RootView {
    pub path: PathView,
    pub scope: SkillScope,
}

impl View for SkillPath {
    type V = PathView;

    open spec fn view(&self) -> PathView {
        Seq::new(self.parts@.len(), |i: int| self.parts@[i]@)
    }
}

impl View for SkillMetadata {
    type V = SkillView;

    open spec fn view(&self) -> SkillView {
        SkillView {
            name: self.name@,
            description: self.description@,
            short_description: text_of(self.short_description),
            path: self.path@,
            scope: self.scope,
        }
    }
}

impl View for SkillError {
    type V = ErrorView;

    open spec fn view(&self) -> ErrorView {
        ErrorView { path: self.path@, message: self.message@ }
    }
}

impl View for SkillRoot {
    type V = RootView;

    open spec fn view(&self) -> RootView {
        RootView { path: self.path@, scope: self.scope }
    }
}

/// The views of a list of skills.
pub open spec fn skill_views(skills: Seq<SkillMetadata>) -> Seq<SkillView> {
    Seq::new(skills.len(), |i: int| skills[i]@)
}

/// The views of a list of failures.
pub open spec fn error_views(errors: Seq<SkillError>) -> Seq<ErrorView> {
    Seq::new(errors.len(), |i: int| errors[i]@)
}

/// The views of a list of roots.
pub open spec fn root_views(roots: Seq<SkillRoot>) -> Seq<RootView> {
    Seq::new(roots.len(), |i: int| roots[i]@)
}

/// The path of what is called `name` in the directory `dir`.
pub open spec fn child(dir: PathView, name: Seq<char>) -> PathView {
    dir.push(encode_utf8(name))
}

/// The bytes of `s`, in a vector of their own.
fn copy_bytes(s: &[u8]) -> (r: Vec<u8>)
    ensures
        r@ == s@,
{
    let mut r: Vec<u8> = Vec::new();
    for i in 0..s.len()
        invariant
            r@ == s@.take(i as int),
    {
        r.push(s[i]);
    }
    r
}

impl Clone for SkillPath {
    fn clone(&self) -> (r: SkillPath)
        ensures
            r@ == self@,
    {
        let mut parts: Vec<Vec<u8>> = Vec::new();
        for i in 0..self.parts.len()
            invariant
                parts@.len() == i,
                forall|j: int| 0 <= j < i ==> (#[trigger] parts@[j])@ == self.parts@[j]@,
        {
            parts.push(copy_bytes(self.parts[i].as_slice()));
        }
        let r = SkillPath { parts };
        assert(r@ =~= self@);
        r
    }
}

impl SkillPath {
    /// The path of what is called `name` in this directory.
    pub fn join(&self, name: &str) -> (r: SkillPath)
        ensures
            r@ == child(self@, name@),
    {
        let mut r: SkillPath = self.clone();
        let ghost before = r@;
        r.parts.push(copy_bytes(name.as_bytes()));
        assert(r@ =~= before.push(encode_utf8(name@)));
        r
    }
}

} // verus!
