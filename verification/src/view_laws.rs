//! What the specifications see of each value: all that it holds.
use vstd::prelude::*;

use crate::config::{ConfigLayerEntry, ConfigLayerStack};
use crate::frontmatter::{SkillFields, SkillFrontmatter, SkillParseError};
use crate::loader::{DirEntry, Reply, Request};
use crate::model::{SkillError, SkillMetadata, SkillPath, SkillRoot};

verus! {

use crate::frontmatter::ParseFailure;
use crate::loader::{ReplyView, RequestView};
use crate::model::{error_views, root_views, skill_views, PathView};

/// Whether an optional text is seen as it is.
pub open spec fn same_text(text: Option<String>, seen: Option<Seq<char>>) -> bool {
    &&& text is Some <==> seen is Some
    &&& text matches Some(text) ==> seen->0 == text@
}

/// Whether an optional path is seen as it is.
pub open spec fn same_path(path: Option<SkillPath>, seen: Option<PathView>) -> bool {
    &&& path is Some <==> seen is Some
    &&& path matches Some(path) ==> seen->0 == path@
}

/// Paths that look the same have the same components, byte for byte.
pub proof fn law_path_is_seen_whole(a: SkillPath, b: SkillPath)
    ensures
        a@ == b@ <==> {
            &&& a.parts@.len() == b.parts@.len()
            &&& forall|i: int| 0 <= i < a.parts@.len() ==> (#[trigger] a.parts@[i])@
                == b.parts@[i]@
        },
        a@.len() == a.parts@.len(),
        forall|i: int| 0 <= i < a.parts@.len() ==> #[trigger] a@[i] == a.parts@[i]@,
{
    if a@ == b@ {
        assert(a@.len() == b@.len());
        assert forall|i: int| 0 <= i < a.parts@.len() implies (#[trigger] a.parts@[i])@
            == b.parts@[i]@ by {
            assert(a@[i] == b@[i]);
        }
    }
    if a.parts@.len() == b.parts@.len() && (forall|i: int|
        0 <= i < a.parts@.len() ==> (#[trigger] a.parts@[i])@ == b.parts@[i]@) {
        assert(a@ =~= b@);
    }
}

/// Of a skill, a failure and a root all fields are seen.
pub proof fn law_results_are_seen_whole(skill: SkillMetadata, error: SkillError, root: SkillRoot)
    ensures
        skill@.name == skill.name@,
        skill@.description == skill.description@,
        same_text(skill.short_description, skill@.short_description),
        skill@.path == skill.path@,
        skill@.scope == skill.scope,
        error@.path == error.path@,
        error@.message == error.message@,
        root@.path == root.path@,
        root@.scope == root.scope,
{
}

/// Of lists of skills, failures and roots every item is seen, at its place.
pub proof fn law_lists_are_seen_whole(
    skills: Seq<SkillMetadata>,
    errors: Seq<SkillError>,
    roots: Seq<SkillRoot>,
)
    ensures
        skill_views(skills).len() == skills.len(),
        forall|i: int| 0 <= i < skills.len() ==> #[trigger] skill_views(skills)[i] == skills[i]@,
        error_views(errors).len() == errors.len(),
        forall|i: int| 0 <= i < errors.len() ==> #[trigger] error_views(errors)[i] == errors[i]@,
        root_views(roots).len() == roots.len(),
        forall|i: int| 0 <= i < roots.len() ==> #[trigger] root_views(roots)[i] == roots[i]@,
{
}

/// Of the configuration every layer is seen, with its source and its folder.
pub proof fn law_layers_are_seen_whole(stack: ConfigLayerStack, layer: ConfigLayerEntry)
    ensures
        stack@.len() == stack.layers@.len(),
        forall|i: int| 0 <= i < stack.layers@.len() ==> #[trigger] stack@[i] == stack.layers@[i]@,
        layer@.name == layer.name,
        same_path(layer.config_folder, layer@.config_folder),
{
}

/// Of a frontmatter and of checked fields all texts are seen.
pub proof fn law_fields_are_seen_whole(parsed: SkillFrontmatter, fields: SkillFields)
    ensures
        parsed@.name == parsed.name@,
        parsed@.description == parsed.description@,
        same_text(parsed.metadata.short_description, parsed@.short_description),
        fields@.name == fields.name@,
        fields@.description == fields.description@,
        same_text(fields.short_description, fields@.short_description),
{
}

/// Of a failure its kind and all its texts are seen.
pub proof fn law_failures_are_seen_whole(failure: SkillParseError)
    ensures
        failure matches SkillParseError::Read(reason) ==> failure@ == ParseFailure::Read(reason@),
        failure is MissingFrontmatter ==> failure@ is MissingFrontmatter,
        failure matches SkillParseError::InvalidYaml(reason) ==> failure@
            == ParseFailure::InvalidYaml(reason@),
        failure matches SkillParseError::MissingField(field) ==> failure@
            == ParseFailure::MissingField(field@),
        failure matches SkillParseError::InvalidField { field, reason } ==> failure@
            == (ParseFailure::InvalidField { field: field@, reason: reason@ }),
{
}

/// Of a request its kind and its path or text are seen.
pub proof fn law_requests_are_seen_whole(request: Request)
    ensures
        request matches Request::Resolve(path) ==> request@ == RequestView::Resolve(path@),
        request matches Request::CheckDir(path) ==> request@ == RequestView::CheckDir(path@),
        request matches Request::ListDir(path) ==> request@ == RequestView::ListDir(path@),
        request matches Request::ReadFile(path) ==> request@ == RequestView::ReadFile(path@),
        request matches Request::ParseYaml(yaml) ==> request@ == RequestView::ParseYaml(yaml@),
        request is Finished <==> request@ is Finished,
{
}

/// Of an entry its name and its type are seen.
pub proof fn law_entries_are_seen_whole(entry: DirEntry)
    ensures
        same_text(entry.name, entry@.name),
        entry@.file_type == entry.file_type,
{
}

/// Of a reply its kind and all that it tells are seen, every entry of a directory among it.
pub proof fn law_replies_are_seen_whole(reply: Reply)
    ensures
        reply matches Reply::Resolved(path) ==> reply@ is Resolved && same_path(
            path,
            reply@->Resolved_0,
        ),
        reply matches Reply::IsDir(is_dir) ==> reply@ == ReplyView::IsDir(is_dir),
        reply matches Reply::Entries(None) ==> reply@ == ReplyView::Entries(None),
        reply matches Reply::Entries(Some(entries)) ==> {
            &&& reply@ is Entries && reply@->Entries_0 is Some
            &&& reply@->Entries_0->0.len() == entries@.len()
            &&& forall|i: int|
                0 <= i < entries@.len() ==> #[trigger] reply@->Entries_0->0[i] == entries@[i]@
        },
        reply matches Reply::Contents(Ok(text)) ==> reply@ == ReplyView::Contents(Ok(text@)),
        reply matches Reply::Contents(Err(reason)) ==> reply@ == ReplyView::Contents(
            Err(reason@),
        ),
        reply matches Reply::Parsed(Ok(parsed)) ==> reply@ == ReplyView::Parsed(Ok(parsed@)),
        reply matches Reply::Parsed(Err(reason)) ==> reply@ == ReplyView::Parsed(Err(reason@)),
{
}

} // verus!
