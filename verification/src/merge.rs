//! Bringing the skills that were found into their final order, each name once.
use vstd::prelude::*;

use crate::model::{SkillMetadata, SkillScope};
use crate::text::chars_of;

verus! {

use crate::model::{skill_views, SkillView};

/// The place of a scope in the order of skills. Scopes of higher priority come first.
pub open spec fn rank(scope: SkillScope) -> int {
    match scope {
        SkillScope::Repo => 0,
        SkillScope::User => 1,
        SkillScope::System => 2,
        SkillScope::Admin => 3,
    }
}

/// Whether `a` comes before `b` in the order of texts: at the first difference the lesser
/// character decides, and a text comes before its continuations.
pub open spec fn text_less(a: Seq<char>, b: Seq<char>) -> bool
    decreases a.len(),
{
    if b.len() == 0 {
        false
    } else if a.len() == 0 {
        true
    } else if a[0] != b[0] {
        a[0] < b[0]
    } else {
        text_less(a.drop_first(), b.drop_first())
    }
}

/// Whether `a` comes before `b` in the list of skills: by scope, then by name.
pub open spec fn precedes(a: SkillView, b: SkillView) -> bool {
    ||| rank(a.scope) < rank(b.scope)
    ||| rank(a.scope) == rank(b.scope) && text_less(a.name, b.name)
}

/// Whether the skill at `at` is the first of its name.
pub open spec fn first_of_name(found: Seq<SkillView>, at: int) -> bool {
    &&& 0 <= at < found.len()
    &&& forall|i: int| 0 <= i < at ==> (#[trigger] found[i]).name != found[at].name
}

/// Whether `skills` is what becomes of the skills in `found`: of each name the first that was
/// found, and these in order.
pub open spec fn merged(found: Seq<SkillView>, skills: Seq<SkillView>) -> bool {
    &&& forall|i: int, j: int|
        0 <= i < j < skills.len() ==> precedes(#[trigger] skills[i], #[trigger] skills[j])
    &&& forall|i: int| 0 <= i < skills.len() ==> kept(found, #[trigger] skills[i])
    &&& forall|at: int| #[trigger]
        first_of_name(found, at) ==> skills.contains(found[at])
}

/// Whether `skill` was found, before any other of its name.
pub open spec fn kept(found: Seq<SkillView>, skill: SkillView) -> bool {
    exists|at: int| #[trigger] first_of_name(found, at) && found[at] == skill
}

pub proof fn lemma_text_less_irreflexive(a: Seq<char>)
    ensures
        !text_less(a, a),
    decreases a.len(),
{
    if a.len() > 0 {
        lemma_text_less_irreflexive(a.drop_first());
    }
}

pub proof fn lemma_text_less_transitive(a: Seq<char>, b: Seq<char>, c: Seq<char>)
    requires
        text_less(a, b),
        text_less(b, c),
    ensures
        text_less(a, c),
    decreases a.len(),
{
    if a.len() > 0 && a[0] == b[0] && b[0] == c[0] {
        lemma_text_less_transitive(a.drop_first(), b.drop_first(), c.drop_first());
    }
}

pub proof fn lemma_text_less_total(a: Seq<char>, b: Seq<char>)
    ensures
        text_less(a, b) || text_less(b, a) || a == b,
    decreases a.len(),
{
    if a.len() > 0 && b.len() > 0 && a[0] == b[0] {
        lemma_text_less_total(a.drop_first(), b.drop_first());
        if a.drop_first() == b.drop_first() {
            assert(a =~= seq![a[0]] + a.drop_first());
            assert(b =~= seq![b[0]] + b.drop_first());
        }
    } else if a.len() == 0 && b.len() == 0 {
        assert(a =~= b);
    }
}

pub proof fn lemma_precedes_irreflexive(a: SkillView)
    ensures
        !precedes(a, a),
{
    lemma_text_less_irreflexive(a.name);
}

pub proof fn lemma_precedes_transitive(a: SkillView, b: SkillView, c: SkillView)
    requires
        precedes(a, b),
        precedes(b, c),
    ensures
        precedes(a, c),
{
    if rank(a.scope) == rank(b.scope) && rank(b.scope) == rank(c.scope) {
        lemma_text_less_transitive(a.name, b.name, c.name);
    }
}

pub proof fn lemma_precedes_total(a: SkillView, b: SkillView)
    ensures
        precedes(a, b) || precedes(b, a) || a.name == b.name,
{
    lemma_text_less_total(a.name, b.name);
}

/// Whether `a` comes before `b` in the order of texts.
fn comes_before(a: &str, b: &str) -> (r: bool)
    ensures
        r == text_less(a@, b@),
{
    let a: Vec<char> = chars_of(a);
    let b: Vec<char> = chars_of(b);
    let mut at: usize = 0;
    assert(a@.skip(0) =~= a@);
    assert(b@.skip(0) =~= b@);
    while at < a.len() && at < b.len() && a[at] == b[at]
        invariant
            at <= a@.len(),
            at <= b@.len(),
            text_less(a@, b@) == text_less(a@.skip(at as int), b@.skip(at as int)),
        decreases a@.len() - at,
    {
        assert(a@.skip(at as int).drop_first() =~= a@.skip(at + 1));
        assert(b@.skip(at as int).drop_first() =~= b@.skip(at + 1));
        at = at + 1;
    }
    at < b.len() && (at >= a.len() || a[at] < b[at])
}

/// The place of a scope in the order of skills.
fn scope_rank(scope: SkillScope) -> (r: u8)
    ensures
        r == rank(scope),
{
    match scope {
        SkillScope::Repo => 0,
        SkillScope::User => 1,
        SkillScope::System => 2,
        SkillScope::Admin => 3,
    }
}

/// Whether `a` comes before `b` in the list of skills.
fn goes_before(a: &SkillMetadata, b: &SkillMetadata) -> (r: bool)
    ensures
        r == precedes(a@, b@),
{
    let first: u8 = scope_rank(a.scope);
    let second: u8 = scope_rank(b.scope);
    first < second || first == second && comes_before(a.name.as_str(), b.name.as_str())
}

/// Whether a skill is called `name`.
fn has_name(skills: &Vec<SkillMetadata>, name: &String) -> (r: bool)
    ensures
        r == exists|i: int| 0 <= i < skills@.len() && (#[trigger] skills@[i])@.name == name@,
{
    for i in 0..skills.len()
        invariant
            forall|j: int| 0 <= j < i ==> (#[trigger] skills@[j])@.name != name@,
    {
        if skills[i].name == *name {
            assert(skills@[i as int]@.name == name@);
            return true;
        }
    }
    false
}

/// One skill more is found, whose name is taken already.
proof fn lemma_merged_taken(found: Seq<SkillView>, skills: Seq<SkillView>, skill: SkillView, i: int)
    requires
        merged(found, skills),
        0 <= i < skills.len(),
        skills[i].name == skill.name,
    ensures
        merged(found.push(skill), skills),
{
    let more = found.push(skill);
    assert forall|i: int| 0 <= i < skills.len() implies kept(more, #[trigger] skills[i]) by {
        assert(kept(found, skills[i]));
        let at = choose|at: int| #[trigger] first_of_name(found, at) && found[at] == skills[i];
        assert(first_of_name(more, at));
    }
    assert forall|at: int| #[trigger] first_of_name(more, at) implies skills.contains(
        more[at],
    ) by {
        if at < found.len() {
            assert(first_of_name(found, at)) by {
                assert forall|i: int| 0 <= i < at implies (#[trigger] found[i]).name
                    != found[at].name by {
                    assert(more[i].name != more[at].name);
                }
            }
        } else {
            assert(kept(found, skills[i]));
            let first = choose|first: int| #[trigger]
                first_of_name(found, first) && found[first] == skills[i];
            assert(more[first].name == more[at].name);
        }
    }
}

/// One skill more is found, with a new name, and put in its place.
proof fn lemma_merged_new(found: Seq<SkillView>, skills: Seq<SkillView>, skill: SkillView, at: int)
    requires
        merged(found, skills),
        0 <= at <= skills.len(),
        forall|i: int| 0 <= i < skills.len() ==> (#[trigger] skills[i]).name != skill.name,
        forall|i: int| 0 <= i < at ==> precedes(#[trigger] skills[i], skill),
        at < skills.len() ==> !precedes(skills[at], skill),
    ensures
        merged(found.push(skill), skills.insert(at, skill)),
{
    let more = found.push(skill);
    let out = skills.insert(at, skill);
    assert forall|i: int| at <= i < skills.len() implies precedes(skill, #[trigger] skills[i]) by {
        lemma_precedes_total(skill, skills[at]);
        if i > at {
            lemma_precedes_transitive(skill, skills[at], skills[i]);
        }
    }
    assert forall|i: int, j: int| 0 <= i < j < out.len() implies precedes(
        #[trigger] out[i],
        #[trigger] out[j],
    ) by {
        let a = if i < at {
            i
        } else {
            i - 1
        };
        let b = if j < at {
            j
        } else {
            j - 1
        };
        if i != at {
            assert(out[i] == skills[a]);
        }
        if j != at {
            assert(out[j] == skills[b]);
        }
    }
    assert forall|i: int| 0 <= i < found.len() implies (#[trigger] found[i]).name
        != skill.name by {
        lemma_first_exists(found, i);
        let first = choose|first: int| #[trigger]
            first_of_name(found, first) && found[first].name == found[i].name;
        assert(skills.contains(found[first]));
    }
    assert(first_of_name(more, found.len() as int));
    assert forall|i: int| 0 <= i < out.len() implies kept(more, #[trigger] out[i]) by {
        if i == at {
            assert(more[found.len() as int] == out[i]);
        } else {
            let a = if i < at {
                i
            } else {
                i - 1
            };
            assert(out[i] == skills[a]);
            assert(kept(found, skills[a]));
            let first = choose|first: int| #[trigger]
                first_of_name(found, first) && found[first] == skills[a];
            assert(first_of_name(more, first));
        }
    }
    assert forall|k: int| #[trigger] first_of_name(more, k) implies out.contains(more[k]) by {
        if k < found.len() {
            assert(first_of_name(found, k)) by {
                assert forall|i: int| 0 <= i < k implies (#[trigger] found[i]).name
                    != found[k].name by {
                    assert(more[i].name != more[k].name);
                }
            }
            let a = choose|a: int| 0 <= a < skills.len() && skills[a] == found[k];
            assert(out[if a < at {
                a
            } else {
                a + 1
            }] == found[k]);
        } else {
            assert(out[at] == skill);
        }
    }
}

/// For each skill that was found there is a first one of its name.
pub proof fn lemma_first_exists(found: Seq<SkillView>, i: int)
    requires
        0 <= i < found.len(),
    ensures
        exists|at: int| #[trigger]
            first_of_name(found, at) && at <= i && found[at].name == found[i].name,
    decreases i,
{
    if !first_of_name(found, i) {
        let j = choose|j: int| 0 <= j < i && (#[trigger] found[j]).name == found[i].name;
        lemma_first_exists(found, j);
        let at = choose|at: int| #[trigger]
            first_of_name(found, at) && at <= j && found[at].name == found[j].name;
        assert(first_of_name(found, at) && at <= i);
    }
}

/// Keeps of each name the first skill that was found, and orders the skills by scope and name.
/// No two that are kept share a name, so scope and name decide the order.
pub fn merge_skills(found: Vec<SkillMetadata>) -> (r: Vec<SkillMetadata>)
    ensures
        merged(skill_views(found@), skill_views(r@)),
{
    let ghost all = skill_views(found@);
    let mut r: Vec<SkillMetadata> = Vec::new();
    for skill in it: found
        invariant
            it.seq() == found@,
            all == skill_views(found@),
            merged(all.take(it.index() as int), skill_views(r@)),
    {
        let ghost before = all.take(it.index() as int);
        let ghost placed = skill_views(r@);
        proof {
            assert(before.push(skill@) =~= all.take(it.index() + 1));
        }
        if has_name(&r, &skill.name) {
            proof {
                let i = choose|i: int| 0 <= i < r@.len() && (#[trigger] r@[i])@.name == skill.name@;
                lemma_merged_taken(before, placed, skill@, i);
            }
        } else {
            let mut at: usize = 0;
            while at < r.len() && goes_before(&r[at], &skill)
                invariant
                    at <= r@.len(),
                    forall|i: int| 0 <= i < at ==> precedes((#[trigger] r@[i])@, skill@),
                decreases r@.len() - at,
            {
                at = at + 1;
            }
            proof {
                assert forall|i: int| 0 <= i < placed.len() implies (#[trigger] placed[i]).name
                    != skill@.name by {
                    assert(placed[i] == r@[i]@);
                }
                assert forall|i: int| 0 <= i < at implies precedes(
                    #[trigger] placed[i],
                    skill@,
                ) by {
                    assert(placed[i] == r@[i]@);
                }
                lemma_merged_new(before, placed, skill@, at as int);
            }
            let ghost view = skill@;
            r.insert(at, skill);
            assert(skill_views(r@) =~= placed.insert(at as int, view));
        }
    }
    assert(all.take(all.len() as int) =~= all);
    r
}

} // verus!
