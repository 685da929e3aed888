//! The configuration layers, and the directories to search that follow from them.
use vstd::prelude::*;

use crate::model::{SkillPath, SkillRoot, SkillScope};

verus! {

use crate::model::{child, root_views, PathView, RootView};

/// The directory of a configuration folder that holds skills.
pub const SKILLS_DIR_NAME: &'static str = "skills";

/// The directory among the user's skills that caches the embedded ones.
pub const SYSTEM_CACHE_DIR_NAME: &'static str = ".system";

/// Where a configuration layer comes from.
#[derive(Debug, Clone, Copy, PartialEq, Eq, Structural)]
pub enum ConfigLayerSource {
    Mdm,
    System,
    User,
    Project,
    SessionFlags,
    LegacyManagedConfigTomlFromFile,
    LegacyManagedConfigTomlFromMdm,
}

/// A configuration layer: its source, and its folder if it has one.
#[derive(Debug, PartialEq, Eq)]
pub struct ConfigLayerEntry {
    pub name: ConfigLayerSource,
    pub config_folder: Option<SkillPath>,
}

/// The configuration layers, from the lowest precedence to the highest.
#[derive(Debug, PartialEq, Eq)]
pub struct ConfigLayerStack {
    pub layers: Vec<ConfigLayerEntry>,
}

/// The configuration, as far as the loading of skills reads it.
#[derive(Debug, PartialEq, Eq)]
pub struct Config {
    pub config_layer_stack: ConfigLayerStack,
}

/// A configuration layer in specifications.
pub struct LayerView {
    pub name: ConfigLayerSource,
    pub config_folder: Option<PathView>,
}

impl View for ConfigLayerEntry {
    type V = LayerView;

    open spec fn view(&self) -> LayerView {
        LayerView {
            name: self.name,
            config_folder: match self.config_folder {
                Some(folder) => Some(folder@),
                None => None,
            },
        }
    }
}

impl View for ConfigLayerStack {
    type V = Seq<LayerView>;

    open spec fn view(&self) -> Seq<LayerView> {
        Seq::new(self.layers@.len(), |i: int| self.layers@[i]@)
    }
}

/// The directory for the skills of a configuration folder.
pub open spec fn skills_dir(folder: PathView) -> PathView {
    child(folder, SKILLS_DIR_NAME@)
}

/// The directory that caches the embedded skills, below the user's own.
pub open spec fn system_cache_dir(folder: PathView) -> PathView {
    child(skills_dir(folder), SYSTEM_CACHE_DIR_NAME@)
}

/// The directories to search for one layer: a project's skills are those of the repository, a
/// user's folder has the user's own and the cache of the embedded ones, and the system's
/// folder has those of the administrator.
pub open spec fn layer_roots(layer: LayerView) -> Seq<RootView> {
    match layer.config_folder {
        None => seq![],
        Some(folder) => match layer.name {
            ConfigLayerSource::Project => seq![
                RootView { path: skills_dir(folder), scope: SkillScope::Repo },
            ],
            ConfigLayerSource::User => seq![
                RootView { path: skills_dir(folder), scope: SkillScope::User },
                RootView { path: system_cache_dir(folder), scope: SkillScope::System },
            ],
            ConfigLayerSource::System => seq![
                RootView { path: skills_dir(folder), scope: SkillScope::Admin },
            ],
            _ => seq![],
        },
    }
}

/// The directories to search for all layers, those of the highest precedence first.
pub open spec fn stack_roots(layers: Seq<LayerView>) -> Seq<RootView>
    decreases layers.len(),
{
    if layers.len() == 0 {
        seq![]
    } else {
        layer_roots(layers.last()) + stack_roots(layers.drop_last())
    }
}

/// The directory that caches the embedded skills, below the user's own.
pub fn system_cache_root_dir(config_folder: &SkillPath) -> (r: SkillPath)
    ensures
        r@ == system_cache_dir(config_folder@),
{
    config_folder.join(SKILLS_DIR_NAME).join(SYSTEM_CACHE_DIR_NAME)
}

/// The directories to search for skills, in the order in which they are searched: those of the
/// layers with the highest precedence first.
pub fn skill_roots_from_layer_stack(config_layer_stack: &ConfigLayerStack) -> (r: Vec<SkillRoot>)
    ensures
        root_views(r@) == stack_roots(config_layer_stack@),
{
    let mut roots: Vec<SkillRoot> = Vec::new();
    let ghost all = config_layer_stack@;
    let mut left: usize = config_layer_stack.layers.len();
    assert(all.take(all.len() as int) =~= all);
    assert(root_views(roots@) + stack_roots(all.take(left as int)) =~= stack_roots(all));
    while left > 0
        invariant
            left <= config_layer_stack.layers@.len(),
            all == config_layer_stack@,
            root_views(roots@) + stack_roots(all.take(left as int)) == stack_roots(all),
        decreases left,
    {
        let ghost before = root_views(roots@);
        let ghost rest = all.take(left as int);
        left = left - 1;
        let layer: &ConfigLayerEntry = &config_layer_stack.layers[left];
        assert(rest.last() == layer@);
        assert(rest.drop_last() =~= all.take(left as int));
        if let Some(config_folder) = &layer.config_folder {
            match layer.name {
                ConfigLayerSource::Project => {
                    roots.push(
                        SkillRoot {
                            path: config_folder.join(SKILLS_DIR_NAME),
                            scope: SkillScope::Repo,
                        },
                    );
                },
                ConfigLayerSource::User => {
                    roots.push(
                        SkillRoot {
                            path: config_folder.join(SKILLS_DIR_NAME),
                            scope: SkillScope::User,
                        },
                    );
                    roots.push(
                        SkillRoot {
                            path: system_cache_root_dir(config_folder),
                            scope: SkillScope::System,
                        },
                    );
                },
                ConfigLayerSource::System => {
                    roots.push(
                        SkillRoot {
                            path: config_folder.join(SKILLS_DIR_NAME),
                            scope: SkillScope::Admin,
                        },
                    );
                },
                ConfigLayerSource::Mdm
                | ConfigLayerSource::SessionFlags
                | ConfigLayerSource::LegacyManagedConfigTomlFromFile
                | ConfigLayerSource::LegacyManagedConfigTomlFromMdm => {},
            }
        }
        assert(root_views(roots@) =~= before + layer_roots(layer@));
        assert(root_views(roots@) + stack_roots(all.take(left as int)) =~= before + stack_roots(
            rest,
        ));
    }
    assert(root_views(roots@) + stack_roots(all.take(0)) =~= root_views(roots@));
    roots
}

/// The directories to search for skills with this configuration.
pub fn skill_roots(config: &Config) -> (r: Vec<SkillRoot>)
    ensures
        root_views(r@) == stack_roots(config.config_layer_stack@),
{
    skill_roots_from_layer_stack(&config.config_layer_stack)
}

} // verus!
