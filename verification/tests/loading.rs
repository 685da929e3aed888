//! Loading skills from files that are held in memory. The YAML is parsed by `serde_yaml`.
use std::collections::BTreeMap;
use std::collections::BTreeSet;

use serde::de::{Error, IgnoredAny, MapAccess, Visitor};
use serde::{Deserialize, Deserializer};
use skill_loader::config::{
    skill_roots, skill_roots_from_layer_stack, Config, ConfigLayerEntry, ConfigLayerSource,
    ConfigLayerStack,
};
use skill_loader::frontmatter::{
    SkillFrontmatter, SkillFrontmatterMetadata, MAX_DESCRIPTION_LEN, MAX_SHORT_DESCRIPTION_LEN,
};
use skill_loader::loader::{
    load_skills, load_skills_from_roots, DirEntry, EntryType, Loader, Reply, Request,
    SKILLS_FILENAME,
};
use skill_loader::merge::merge_skills;
use skill_loader::model::{
    SkillError, SkillLoadOutcome, SkillMetadata, SkillPath, SkillRoot, SkillScope,
};

const CODEX_HOME: &str = "/home/codex";
const SYSTEM_FOLDER: &str = "/etc/codex";

/// The path with these components.
fn path(text: &str) -> SkillPath {
    let parts = text.split('/').filter(|part| !part.is_empty());
    SkillPath {
        parts: parts.map(|part| part.as_bytes().to_vec()).collect(),
    }
}

/// The components of a path, with a slash before each.
fn text(path: &SkillPath) -> String {
    path.parts
        .iter()
        .map(|part| format!("/{}", String::from_utf8(part.clone()).unwrap()))
        .collect()
}

/// Files in memory.
#[derive(Default)]
struct Files {
    dirs: BTreeMap<String, Vec<DirEntry>>,
    contents: BTreeMap<String, String>,
    unreadable: BTreeSet<String>,
    canonical: BTreeMap<String, String>,
}

fn entry(name: &str, file_type: EntryType) -> DirEntry {
    DirEntry {
        name: Some(name.to_string()),
        file_type: Some(file_type),
    }
}

impl Files {
    fn add_entry(&mut self, dir: &str, new: DirEntry) {
        self.make_dir(dir);
        let entries = self.dirs.get_mut(dir).unwrap();
        if !entries.contains(&new) {
            entries.push(new);
        }
    }

    fn make_dir(&mut self, dir: &str) {
        if !dir.is_empty() && !self.dirs.contains_key(dir) {
            self.dirs.insert(dir.to_string(), Vec::new());
            let (parent, name) = dir.rsplit_once('/').unwrap();
            self.add_entry(parent, entry(name, EntryType::Dir));
        } else {
            self.dirs.entry(dir.to_string()).or_default();
        }
    }

    fn write(&mut self, file: &str, contents: &str) {
        let (dir, name) = file.rsplit_once('/').unwrap();
        self.add_entry(dir, entry(name, EntryType::File));
        self.contents.insert(file.to_string(), contents.to_string());
    }

    /// Writes a skill file into a directory below `root` and gives its path.
    fn write_skill_at(&mut self, root: &str, dir: &str, name: &str, description: &str) -> SkillPath {
        let indented_description = description.replace('\n', "\n  ");
        let content = format!(
            "---\nname: {name}\ndescription: |-\n  {indented_description}\n---\n\n# Body\n"
        );
        let file = format!("{root}/{dir}/{SKILLS_FILENAME}");
        self.write(&file, &content);
        path(&file)
    }

    fn write_skill(&mut self, dir: &str, name: &str, description: &str) -> SkillPath {
        self.write_skill_at(&format!("{CODEX_HOME}/skills"), dir, name, description)
    }

    fn write_system_skill(&mut self, dir: &str, name: &str, description: &str) -> SkillPath {
        self.write_skill_at(&format!("{CODEX_HOME}/skills/.system"), dir, name, description)
    }

    fn reply(&self, request: &Request) -> Reply {
        match request {
            Request::Resolve(p) => {
                let p = text(p);
                let found = self.dirs.contains_key(&p) || self.contents.contains_key(&p);
                Reply::Resolved(match self.canonical.get(&p) {
                    Some(other) => Some(path(other)),
                    None if found => Some(path(&p)),
                    None => None,
                })
            }
            Request::CheckDir(p) => Reply::IsDir(self.dirs.contains_key(&text(p))),
            Request::ListDir(p) => {
                if self.unreadable.contains(&text(p)) {
                    return Reply::Entries(None);
                }
                let entries = self.dirs[&text(p)].iter().map(|e| DirEntry {
                    name: e.name.clone(),
                    file_type: e.file_type,
                });
                Reply::Entries(Some(entries.collect()))
            }
            Request::ReadFile(p) => {
                if self.unreadable.contains(&text(p)) {
                    return Reply::Contents(Err("permission denied".to_string()));
                }
                Reply::Contents(Ok(self.contents[&text(p)].clone()))
            }
            Request::ParseYaml(yaml) => Reply::Parsed(parse_yaml(yaml)),
            Request::Finished => panic!("nothing is asked any more"),
        }
    }

    fn run(&self, loader: Loader) -> SkillLoadOutcome {
        let mut loader = loader;
        loop {
            let request = loader.request();
            if request == Request::Finished {
                return loader.outcome().unwrap();
            }
            loader = loader.resume(self.reply(&request));
        }
    }

    fn load(&self, config: &Config) -> SkillLoadOutcome {
        self.run(load_skills(config))
    }
}

/// A frontmatter that `serde` reads from a YAML mapping.
struct Parsed(SkillFrontmatter);

/// The optional metadata of a frontmatter.
struct ParsedMetadata(SkillFrontmatterMetadata);

struct ParsedVisitor;

struct ParsedMetadataVisitor;

impl<'de> Visitor<'de> for ParsedVisitor {
    type Value = Parsed;

    fn expecting(&self, f: &mut std::fmt::Formatter) -> std::fmt::Result {
        f.write_str("a frontmatter")
    }

    fn visit_map<A: MapAccess<'de>>(self, mut map: A) -> Result<Parsed, A::Error> {
        let mut name: Option<String> = None;
        let mut description: Option<String> = None;
        let mut metadata: Option<ParsedMetadata> = None;
        while let Some(key) = map.next_key::<String>()? {
            match key.as_str() {
                "name" if name.is_some() => return Err(A::Error::duplicate_field("name")),
                "name" => name = Some(map.next_value()?),
                "description" if description.is_some() => {
                    return Err(A::Error::duplicate_field("description"))
                }
                "description" => description = Some(map.next_value()?),
                "metadata" if metadata.is_some() => {
                    return Err(A::Error::duplicate_field("metadata"))
                }
                "metadata" => metadata = Some(map.next_value()?),
                _ => {
                    map.next_value::<IgnoredAny>()?;
                }
            }
        }
        Ok(Parsed(SkillFrontmatter {
            name: name.ok_or_else(|| A::Error::missing_field("name"))?,
            description: description.ok_or_else(|| A::Error::missing_field("description"))?,
            metadata: match metadata {
                Some(metadata) => metadata.0,
                None => SkillFrontmatterMetadata {
                    short_description: None,
                },
            },
        }))
    }
}

impl<'de> Visitor<'de> for ParsedMetadataVisitor {
    type Value = ParsedMetadata;

    fn expecting(&self, f: &mut std::fmt::Formatter) -> std::fmt::Result {
        f.write_str("the metadata of a frontmatter")
    }

    fn visit_map<A: MapAccess<'de>>(self, mut map: A) -> Result<ParsedMetadata, A::Error> {
        let mut short_description: Option<Option<String>> = None;
        while let Some(key) = map.next_key::<String>()? {
            if key != "short-description" {
                map.next_value::<IgnoredAny>()?;
            } else if short_description.is_some() {
                return Err(A::Error::duplicate_field("short-description"));
            } else {
                short_description = Some(map.next_value()?);
            }
        }
        Ok(ParsedMetadata(SkillFrontmatterMetadata {
            short_description: short_description.flatten(),
        }))
    }
}

impl<'de> Deserialize<'de> for Parsed {
    fn deserialize<D: Deserializer<'de>>(deserializer: D) -> Result<Parsed, D::Error> {
        let fields = &["name", "description", "metadata"];
        deserializer.deserialize_struct("SkillFrontmatter", fields, ParsedVisitor)
    }
}

impl<'de> Deserialize<'de> for ParsedMetadata {
    fn deserialize<D: Deserializer<'de>>(deserializer: D) -> Result<ParsedMetadata, D::Error> {
        let fields = &["short-description"];
        deserializer.deserialize_struct(
            "SkillFrontmatterMetadata",
            fields,
            ParsedMetadataVisitor,
        )
    }
}

fn parse_yaml(yaml: &str) -> Result<SkillFrontmatter, String> {
    match serde_yaml::from_str::<Parsed>(yaml) {
        Ok(parsed) => Ok(parsed.0),
        Err(e) => Err(e.to_string()),
    }
}

fn layer(name: ConfigLayerSource, folder: &str) -> ConfigLayerEntry {
    ConfigLayerEntry {
        name,
        config_folder: Some(path(folder)),
    }
}

/// The layers of the system and the user, and of these project folders, the nearest last.
fn make_config(project_folders: &[&str]) -> Config {
    let mut layers = vec![
        layer(ConfigLayerSource::System, SYSTEM_FOLDER),
        layer(ConfigLayerSource::User, CODEX_HOME),
    ];
    for folder in project_folders {
        layers.push(layer(ConfigLayerSource::Project, folder));
    }
    Config {
        config_layer_stack: ConfigLayerStack { layers },
    }
}

fn skill(name: &str, description: &str, path: SkillPath, scope: SkillScope) -> SkillMetadata {
    SkillMetadata {
        name: name.to_string(),
        description: description.to_string(),
        short_description: None,
        path,
        scope,
    }
}

fn root(folder: &str, scope: SkillScope) -> SkillRoot {
    SkillRoot {
        path: path(folder),
        scope,
    }
}

#[test]
fn skill_roots_from_layer_stack_maps_user_to_user_and_system_cache_and_system_to_admin() {
    let stack = ConfigLayerStack {
        layers: vec![
            layer(ConfigLayerSource::System, "/tmp/etc/codex"),
            layer(ConfigLayerSource::User, "/tmp/home/codex"),
        ],
    };

    let got = skill_roots_from_layer_stack(&stack)
        .into_iter()
        .map(|root| (root.scope, root.path))
        .collect::<Vec<_>>();

    assert_eq!(
        got,
        vec![
            (SkillScope::User, path("/tmp/home/codex/skills")),
            (SkillScope::System, path("/tmp/home/codex/skills/.system")),
            (SkillScope::Admin, path("/tmp/etc/codex/skills")),
        ]
    );
}

#[test]
fn loads_valid_skill() {
    let mut files = Files::default();
    let skill_path = files.write_skill("demo", "demo-skill", "does things\ncarefully");

    let outcome = files.load(&make_config(&[]));
    assert!(outcome.errors.is_empty(), "unexpected errors: {:?}", outcome.errors);
    assert_eq!(
        outcome.skills,
        vec![skill("demo-skill", "does things carefully", skill_path, SkillScope::User)]
    );
}

#[test]
fn loads_short_description_from_metadata() {
    let mut files = Files::default();
    let contents = "---\nname: demo-skill\ndescription: long description\nmetadata:\n  short-description: short summary\n---\n\n# Body\n";
    files.write("/home/codex/skills/demo/SKILL.md", contents);

    let outcome = files.load(&make_config(&[]));
    assert!(outcome.errors.is_empty(), "unexpected errors: {:?}", outcome.errors);
    assert_eq!(
        outcome.skills,
        vec![SkillMetadata {
            name: "demo-skill".to_string(),
            description: "long description".to_string(),
            short_description: Some("short summary".to_string()),
            path: path("/home/codex/skills/demo/SKILL.md"),
            scope: SkillScope::User,
        }]
    );
}

#[test]
fn enforces_short_description_length_limits() {
    let mut files = Files::default();
    let too_long = "x".repeat(MAX_SHORT_DESCRIPTION_LEN + 1);
    let contents = format!(
        "---\nname: demo-skill\ndescription: long description\nmetadata:\n  short-description: {too_long}\n---\n\n# Body\n"
    );
    files.write("/home/codex/skills/demo/SKILL.md", &contents);

    let outcome = files.load(&make_config(&[]));
    assert_eq!(outcome.skills.len(), 0);
    assert_eq!(outcome.errors.len(), 1);
    assert!(
        outcome.errors[0]
            .message
            .contains("invalid metadata.short-description"),
        "expected length error, got: {:?}",
        outcome.errors
    );
}

#[test]
fn skips_hidden_and_invalid() {
    let mut files = Files::default();
    files.write(
        "/home/codex/skills/.hidden/SKILL.md",
        "---\nname: hidden\ndescription: hidden\n---\n",
    );

    // Invalid because missing closing frontmatter.
    files.write("/home/codex/skills/invalid/SKILL.md", "---\nname: bad");

    let outcome = files.load(&make_config(&[]));
    assert_eq!(outcome.skills.len(), 0);
    assert_eq!(outcome.errors.len(), 1);
    assert!(
        outcome.errors[0]
            .message
            .contains("missing YAML frontmatter"),
        "expected frontmatter error"
    );
    assert_eq!(outcome.errors[0].path, path("/home/codex/skills/invalid/SKILL.md"));
}

#[test]
fn enforces_length_limits() {
    let mut files = Files::default();
    let max_desc = "\u{1F4A1}".repeat(MAX_DESCRIPTION_LEN);
    files.write_skill("max-len", "max-len", &max_desc);
    let cfg = make_config(&[]);

    let outcome = files.load(&cfg);
    assert!(outcome.errors.is_empty(), "unexpected errors: {:?}", outcome.errors);
    assert_eq!(outcome.skills.len(), 1);

    let too_long_desc = "\u{1F4A1}".repeat(MAX_DESCRIPTION_LEN + 1);
    files.write_skill("too-long", "too-long", &too_long_desc);
    let outcome = files.load(&cfg);
    assert_eq!(outcome.skills.len(), 1);
    assert_eq!(outcome.errors.len(), 1);
    assert!(
        outcome.errors[0].message.contains("invalid description"),
        "expected length error"
    );
}

#[test]
fn loads_skills_from_repo_root() {
    let mut files = Files::default();
    let skill_path =
        files.write_skill_at("/repo/.codex/skills", "repo", "repo-skill", "from repo");

    let outcome = files.load(&make_config(&["/repo/.codex"]));
    assert!(outcome.errors.is_empty(), "unexpected errors: {:?}", outcome.errors);
    assert_eq!(
        outcome.skills,
        vec![skill("repo-skill", "from repo", skill_path, SkillScope::Repo)]
    );
}

#[test]
fn loads_skills_from_all_codex_dirs_under_project_root() {
    let mut files = Files::default();
    let root_skill_path =
        files.write_skill_at("/repo/.codex/skills", "root", "root-skill", "from root");
    let nested_skill_path = files.write_skill_at(
        "/repo/nested/.codex/skills",
        "nested",
        "nested-skill",
        "from nested",
    );

    let outcome = files.load(&make_config(&["/repo/.codex", "/repo/nested/.codex"]));
    assert!(outcome.errors.is_empty(), "unexpected errors: {:?}", outcome.errors);
    assert_eq!(
        outcome.skills,
        vec![
            skill("nested-skill", "from nested", nested_skill_path, SkillScope::Repo),
            skill("root-skill", "from root", root_skill_path, SkillScope::Repo),
        ]
    );
}

#[test]
fn loads_skills_from_codex_dir_when_not_git_repo() {
    let mut files = Files::default();
    let skill_path =
        files.write_skill_at("/work/.codex/skills", "local", "local-skill", "from cwd");

    let outcome = files.load(&make_config(&["/work/.codex"]));
    assert!(outcome.errors.is_empty(), "unexpected errors: {:?}", outcome.errors);
    assert_eq!(
        outcome.skills,
        vec![skill("local-skill", "from cwd", skill_path, SkillScope::Repo)]
    );
}

#[test]
fn deduplicates_by_name_preferring_repo_over_user() {
    let mut files = Files::default();
    files.write_skill("user", "dupe-skill", "from user");
    let repo_skill_path =
        files.write_skill_at("/repo/.codex/skills", "repo", "dupe-skill", "from repo");

    let outcome = files.load(&make_config(&["/repo/.codex"]));
    assert!(outcome.errors.is_empty(), "unexpected errors: {:?}", outcome.errors);
    assert_eq!(
        outcome.skills,
        vec![skill("dupe-skill", "from repo", repo_skill_path, SkillScope::Repo)]
    );
}

#[test]
fn loads_system_skills_when_present() {
    let mut files = Files::default();
    files.write_system_skill("system", "dupe-skill", "from system");
    let user_skill_path = files.write_skill("user", "dupe-skill", "from user");

    let outcome = files.load(&make_config(&[]));
    assert!(outcome.errors.is_empty(), "unexpected errors: {:?}", outcome.errors);
    assert_eq!(
        outcome.skills,
        vec![skill("dupe-skill", "from user", user_skill_path, SkillScope::User)]
    );
}

#[test]
fn repo_skills_search_does_not_escape_repo_root() {
    let mut files = Files::default();
    files.write_skill_at("/outer/.codex/skills", "outer", "outer-skill", "from outer");
    files.make_dir("/outer/repo/.codex");

    let outcome = files.load(&make_config(&["/outer/repo/.codex"]));
    assert!(outcome.errors.is_empty(), "unexpected errors: {:?}", outcome.errors);
    assert_eq!(outcome.skills.len(), 0);
}

#[test]
fn loads_skills_when_cwd_is_file_in_repo() {
    let mut files = Files::default();
    let skill_path =
        files.write_skill_at("/repo/.codex/skills", "repo", "repo-skill", "from repo");
    files.write("/repo/some-file.txt", "contents");

    let outcome = files.load(&make_config(&["/repo/.codex"]));
    assert!(outcome.errors.is_empty(), "unexpected errors: {:?}", outcome.errors);
    assert_eq!(
        outcome.skills,
        vec![skill("repo-skill", "from repo", skill_path, SkillScope::Repo)]
    );
}

#[test]
fn non_git_repo_skills_search_does_not_walk_parents() {
    let mut files = Files::default();
    files.write_skill_at("/outer/.codex/skills", "outer", "outer-skill", "from outer");
    files.make_dir("/outer/nested/inner");

    let outcome = files.load(&make_config(&[]));
    assert!(outcome.errors.is_empty(), "unexpected errors: {:?}", outcome.errors);
    assert_eq!(outcome.skills.len(), 0);
}

#[test]
fn loads_skills_from_system_cache_when_present() {
    let mut files = Files::default();
    let skill_path = files.write_system_skill("system", "system-skill", "from system");

    let outcome = files.load(&make_config(&[]));
    assert!(outcome.errors.is_empty(), "unexpected errors: {:?}", outcome.errors);
    assert_eq!(
        outcome.skills,
        vec![skill("system-skill", "from system", skill_path, SkillScope::System)]
    );
}

#[test]
fn skill_roots_include_admin_with_lowest_priority_on_unix() {
    let scopes: Vec<SkillScope> = skill_roots(&make_config(&[]))
        .into_iter()
        .map(|root| root.scope)
        .collect();
    assert_eq!(
        scopes,
        vec![SkillScope::User, SkillScope::System, SkillScope::Admin]
    );
}

#[test]
fn deduplicates_by_name_preferring_system_over_admin() {
    let mut files = Files::default();
    let system_skill_path =
        files.write_skill_at("/system", "system", "dupe-skill", "from system");
    files.write_skill_at("/admin", "admin", "dupe-skill", "from admin");

    let outcome = files.run(load_skills_from_roots(vec![
        root("/system", SkillScope::System),
        root("/admin", SkillScope::Admin),
    ]));

    assert!(outcome.errors.is_empty(), "unexpected errors: {:?}", outcome.errors);
    assert_eq!(
        outcome.skills,
        vec![skill("dupe-skill", "from system", system_skill_path, SkillScope::System)]
    );
}

#[test]
fn deduplicates_by_name_preferring_user_over_system() {
    let mut files = Files::default();
    let user_skill_path = files.write_skill("user", "dupe-skill", "from user");
    files.write_system_skill("system", "dupe-skill", "from system");

    let outcome = files.load(&make_config(&[]));
    assert!(outcome.errors.is_empty(), "unexpected errors: {:?}", outcome.errors);
    assert_eq!(
        outcome.skills,
        vec![skill("dupe-skill", "from user", user_skill_path, SkillScope::User)]
    );
}

#[test]
fn deduplicates_by_name_preferring_repo_over_system() {
    let mut files = Files::default();
    let repo_skill_path =
        files.write_skill_at("/repo/.codex/skills", "repo", "dupe-skill", "from repo");
    files.write_system_skill("system", "dupe-skill", "from system");

    let outcome = files.load(&make_config(&["/repo/.codex"]));
    assert!(outcome.errors.is_empty(), "unexpected errors: {:?}", outcome.errors);
    assert_eq!(
        outcome.skills,
        vec![skill("dupe-skill", "from repo", repo_skill_path, SkillScope::Repo)]
    );
}

#[test]
fn deduplicates_by_name_preferring_nearest_project_codex_dir() {
    let mut files = Files::default();
    files.write_skill_at("/repo/.codex/skills", "root", "dupe-skill", "from root");
    let nested_skill_path = files.write_skill_at(
        "/repo/nested/.codex/skills",
        "nested",
        "dupe-skill",
        "from nested",
    );

    let outcome = files.load(&make_config(&["/repo/.codex", "/repo/nested/.codex"]));
    assert!(outcome.errors.is_empty(), "unexpected errors: {:?}", outcome.errors);
    assert_eq!(
        vec![skill("dupe-skill", "from nested", nested_skill_path, SkillScope::Repo)],
        outcome.skills
    );
}

#[test]
fn accepts_description_with_unquoted_special_yaml_chars() {
    let mut files = Files::default();
    let contents = "---\nname: address-bug\ndescription: Addresses technical bugs from an issue tracker. Should be used when the following RegExp is present in a prompt: `PLS-\\d+`.\n---\n\n# Body\n";
    files.write("/home/codex/skills/address-bug/SKILL.md", contents);

    let outcome = files.load(&make_config(&[]));
    assert!(outcome.errors.is_empty(), "unexpected errors: {:?}", outcome.errors);
    assert_eq!(outcome.skills.len(), 1);
    assert_eq!(outcome.skills[0].name, "address-bug");
    assert!(
        outcome.skills[0]
            .description
            .contains("RegExp is present in a prompt: `PLS-\\d+`"),
        "Description should contain the pattern, got: {:?}",
        outcome.skills[0].description
    );
}

#[test]
fn accepts_description_with_manually_quoted_yaml() {
    let mut files = Files::default();
    let contents = "---\nname: address-bug\ndescription: \"Addresses technical bugs from an issue tracker. Should be used when the following RegExp is present in a prompt: `PLS-\\\\d+`.\"\n---\n\n# Body\n";
    files.write("/home/codex/skills/address-bug/SKILL.md", contents);

    let outcome = files.load(&make_config(&[]));
    assert!(outcome.errors.is_empty(), "unexpected errors: {:?}", outcome.errors);
    assert_eq!(
        outcome.skills,
        vec![skill(
            "address-bug",
            "Addresses technical bugs from an issue tracker. Should be used when the following RegExp is present in a prompt: `PLS-\\d+`.",
            path("/home/codex/skills/address-bug/SKILL.md"),
            SkillScope::User,
        )]
    );
}

#[test]
fn accepts_description_with_block_scalar_yaml() {
    let mut files = Files::default();
    let contents = "---\nname: address-bug\ndescription: |-\n  Addresses technical bugs from an issue tracker. Should be used when the following\n  RegExp is present in a prompt: `PLS-\\d+`.\n---\n\n# Body\n";
    files.write("/home/codex/skills/address-bug/SKILL.md", contents);

    let outcome = files.load(&make_config(&[]));
    assert!(outcome.errors.is_empty(), "unexpected errors: {:?}", outcome.errors);
    assert_eq!(outcome.skills.len(), 1);
    assert_eq!(outcome.skills[0].name, "address-bug");
    assert!(outcome.skills[0]
        .description
        .contains("RegExp is present in a prompt: `PLS-\\d+`."));
}

#[test]
fn only_layers_with_a_folder_and_a_known_source_have_roots() {
    let mut layers: Vec<ConfigLayerEntry> = Vec::new();
    for name in [
        ConfigLayerSource::Mdm,
        ConfigLayerSource::SessionFlags,
        ConfigLayerSource::LegacyManagedConfigTomlFromFile,
        ConfigLayerSource::LegacyManagedConfigTomlFromMdm,
        ConfigLayerSource::Project,
    ] {
        layers.push(layer(name, "/f"));
    }
    for name in [
        ConfigLayerSource::System,
        ConfigLayerSource::User,
        ConfigLayerSource::Project,
    ] {
        layers.push(ConfigLayerEntry {
            name,
            config_folder: None,
        });
    }
    assert_eq!(
        skill_roots_from_layer_stack(&ConfigLayerStack { layers }),
        vec![root("/f/skills", SkillScope::Repo)]
    );
}

#[test]
fn higher_layers_are_searched_first() {
    let roots = skill_roots(&make_config(&["/repo/.codex", "/repo/nested/.codex"]));
    assert_eq!(
        roots,
        vec![
            root("/repo/nested/.codex/skills", SkillScope::Repo),
            root("/repo/.codex/skills", SkillScope::Repo),
            root("/home/codex/skills", SkillScope::User),
            root("/home/codex/skills/.system", SkillScope::System),
            root("/etc/codex/skills", SkillScope::Admin),
        ]
    );
}

#[test]
fn search_is_breadth_first_and_stops_at_hidden_entries_and_links() {
    let mut files = Files::default();
    files.write_skill_at("/r", "a/deep", "same", "deep");
    let first = files.write_skill_at("/r", "b", "same", "shallow");
    files.write_skill_at("/r/.hidden", "c", "hidden", "hidden");
    files.write_skill_at("/elsewhere", "d", "linked", "linked");
    files.write("/r/b/OTHER.md", "---\nname: other\ndescription: other\n---\n");
    files.add_entry("/r", entry("link", EntryType::Symlink));
    files.add_entry("/r", entry("pipe", EntryType::Other));
    files.add_entry("/r/b", entry(".SKILL.md", EntryType::File));
    files.add_entry("/r/pit", entry("SKILL.md", EntryType::Symlink));
    files.add_entry(
        "/r",
        DirEntry {
            name: None,
            file_type: Some(EntryType::Dir),
        },
    );
    files.add_entry(
        "/r",
        DirEntry {
            name: Some("unknown".to_string()),
            file_type: None,
        },
    );
    let outcome = files.run(load_skills_from_roots(vec![root("/r", SkillScope::Repo)]));
    assert_eq!(outcome.errors, vec![]);
    assert_eq!(
        outcome.skills,
        vec![skill("same", "shallow", first, SkillScope::Repo)]
    );
}

#[test]
fn links_make_no_difference() {
    let skills = |with_links: bool| {
        let mut files = Files::default();
        files.write_skill_at("/r", "a", "one", "first");
        if with_links {
            files.add_entry("/r", entry("loop", EntryType::Symlink));
            files.add_entry("/r/a", entry("SKILL.md", EntryType::Symlink));
        }
        files.write("/r/b/SKILL.md", "no frontmatter");
        if with_links {
            files.add_entry("/r/b", entry("to-a", EntryType::Symlink));
        }
        files.write_skill_at("/r/b", "c", "two", "second");
        files.run(load_skills_from_roots(vec![root("/r", SkillScope::Repo)]))
    };
    let outcome = skills(true);
    assert_eq!(outcome.skills.len(), 2);
    assert_eq!(outcome.errors.len(), 1);
    assert_eq!(outcome, skills(false));
}

#[test]
fn a_directory_that_cannot_be_listed_counts_as_empty() {
    let outcome = |locked: bool| {
        let mut files = Files::default();
        files.make_dir("/r/d");
        if locked {
            files.write_skill_at("/r", "d/inner", "inner", "unseen");
            files.unreadable.insert("/r/d".to_string());
        }
        files.write_skill_at("/r", "e", "seen", "seen");
        files.write("/r/f/SKILL.md", "");
        files.run(load_skills_from_roots(vec![root("/r", SkillScope::Repo)]))
    };
    assert_eq!(outcome(true).skills.len(), 1);
    assert_eq!(outcome(true).errors.len(), 1);
    assert_eq!(outcome(true), outcome(false));
}

#[test]
fn a_block_scalar_is_loaded_as_it_is_written() {
    let mut files = Files::default();
    files.write(
        "/r/a/SKILL.md",
        "---\nname: a\ndescription: |-\n  see: b, c\nmetadata:\n  short-description: 'd: e'\n---\n",
    );
    files.write(
        "/r/b/SKILL.md",
        "---\nname: b\ndescription: d\nmetadata: text\n---\n",
    );
    let outcome = files.run(load_skills_from_roots(vec![root("/r", SkillScope::Repo)]));
    assert_eq!(outcome.skills.len(), 1);
    assert_eq!(outcome.skills[0].description, "see: b, c");
    assert_eq!(outcome.skills[0].short_description.as_deref(), Some("d: e"));
    assert_eq!(outcome.errors.len(), 1);
    assert!(outcome.errors[0].message.starts_with("invalid YAML: metadata: "));
}

#[test]
fn a_frontmatter_may_be_indented_as_a_whole() {
    let mut files = Files::default();
    files.write(
        "/r/a/SKILL.md",
        "---\n  name: a\n  description: use when: b, c\n  metadata:\n    short-description: d\n---\n",
    );
    let outcome = files.run(load_skills_from_roots(vec![root("/r", SkillScope::Repo)]));
    assert!(outcome.errors.is_empty(), "unexpected errors: {:?}", outcome.errors);
    assert_eq!(outcome.skills.len(), 1);
    assert_eq!(outcome.skills[0].name, "a");
    assert_eq!(outcome.skills[0].description, "use when: b, c");
    assert_eq!(outcome.skills[0].short_description.as_deref(), Some("d"));
}

#[test]
fn a_name_stays_with_the_scope_of_highest_priority() {
    let admin_skills = format!("{SYSTEM_FOLDER}/skills");
    for (skip, scope) in [
        (0, SkillScope::Repo),
        (1, SkillScope::User),
        (2, SkillScope::System),
        (3, SkillScope::Admin),
    ] {
        let mut files = Files::default();
        if skip < 1 {
            files.write_skill_at("/repo/.codex/skills", "d", "dupe-skill", "from repo");
        }
        if skip < 2 {
            files.write_skill("d", "dupe-skill", "from user");
        }
        if skip < 3 {
            files.write_system_skill("d", "dupe-skill", "from system");
        }
        files.write_skill_at(&admin_skills, "d", "dupe-skill", "from admin");

        let outcome = files.load(&make_config(&["/repo/.codex"]));
        assert!(outcome.errors.is_empty(), "unexpected errors: {:?}", outcome.errors);
        assert_eq!(outcome.skills.len(), 1);
        assert_eq!(outcome.skills[0].scope, scope);
    }
}

#[test]
fn a_directory_called_like_a_skill_file_is_entered() {
    let mut files = Files::default();
    let inner = files.write_skill_at("/r", "SKILL.md", "inner", "inside");
    let outcome = files.run(load_skills_from_roots(vec![root("/r", SkillScope::Repo)]));
    assert_eq!(
        outcome.skills,
        vec![skill("inner", "inside", inner, SkillScope::Repo)]
    );
}

#[test]
fn failures_are_reported_except_in_the_system_scope() {
    let mut files = Files::default();
    files.write("/r/gone/SKILL.md", "");
    files.unreadable.insert("/r/gone/SKILL.md".to_string());
    files.write("/r/plain/SKILL.md", "# Body\n");
    files.write("/r/yaml/SKILL.md", "---\nname: [\n---\n");
    files.write("/r/none/SKILL.md", "---\nname: ''\ndescription: d\n---\n");
    files.make_dir("/r/locked/inner");
    files.unreadable.insert("/r/locked".to_string());
    let good = files.write_skill_at("/r", "good", "good", "fine");

    let outcome = files.run(load_skills_from_roots(vec![root("/r", SkillScope::Admin)]));
    let failures: Vec<(SkillPath, String)> = outcome
        .errors
        .into_iter()
        .map(|e| (e.path, e.message))
        .collect();
    assert_eq!(failures.len(), 4);
    assert_eq!(
        failures[0],
        (
            path("/r/gone/SKILL.md"),
            "failed to read file: permission denied".to_string()
        )
    );
    assert_eq!(
        failures[1],
        (
            path("/r/plain/SKILL.md"),
            "missing YAML frontmatter delimited by ---".to_string()
        )
    );
    assert_eq!(failures[2].0, path("/r/yaml/SKILL.md"));
    assert!(failures[2].1.starts_with("invalid YAML: "));
    assert_eq!(
        failures[3],
        (path("/r/none/SKILL.md"), "missing field `name`".to_string())
    );
    assert_eq!(
        outcome.skills,
        vec![skill("good", "fine", path("/r/good/SKILL.md"), SkillScope::Admin)]
    );

    let outcome = files.run(load_skills_from_roots(vec![root("/r", SkillScope::System)]));
    assert_eq!(outcome.errors, vec![]);
    assert_eq!(
        outcome.skills,
        vec![skill("good", "fine", good, SkillScope::System)]
    );
}

#[test]
fn canonical_paths_are_used() {
    let mut files = Files::default();
    files.write_skill_at("/real", "a", "moved", "moved");
    files.canonical.insert("/alias".to_string(), "/real".to_string());
    files
        .canonical
        .insert("/real/a/SKILL.md".to_string(), "/real/b/SKILL.md".to_string());
    files.write("/file", "");
    let outcome = files.run(load_skills_from_roots(vec![
        root("/absent", SkillScope::Repo),
        root("/file", SkillScope::Repo),
        root("/alias", SkillScope::User),
    ]));
    assert_eq!(outcome.errors, vec![]);
    assert_eq!(
        outcome.skills,
        vec![skill("moved", "moved", path("/real/b/SKILL.md"), SkillScope::User)]
    );
}

#[test]
fn the_path_of_the_file_is_used_where_none_is_canonical() {
    let frontmatter = || SkillFrontmatter {
        name: "n".to_string(),
        description: "d".to_string(),
        metadata: SkillFrontmatterMetadata {
            short_description: Some("s".to_string()),
        },
    };
    let loader = load_skills_from_roots(vec![root("/r", SkillScope::Repo)]);
    assert_eq!(loader.request(), Request::Resolve(path("/r")));
    let loader = loader.resume(Reply::Resolved(Some(path("/c"))));
    assert_eq!(loader.request(), Request::CheckDir(path("/c")));
    let loader = loader.resume(Reply::IsDir(true));
    assert_eq!(loader.request(), Request::ListDir(path("/c")));
    let loader = loader.resume(Reply::Entries(Some(vec![entry("SKILL.md", EntryType::File)])));
    assert_eq!(loader.request(), Request::ReadFile(path("/c/SKILL.md")));
    let loader = loader.resume(Reply::Contents(Ok("---\nk: a, b\n---".to_string())));
    assert_eq!(loader.request(), Request::ParseYaml("k: \"a, b\"".to_string()));
    let loader = loader.resume(Reply::Parsed(Ok(frontmatter())));
    assert_eq!(loader.request(), Request::Resolve(path("/c/SKILL.md")));
    let loader = loader.resume(Reply::Resolved(None));
    assert_eq!(loader.request(), Request::Finished);
    let skills = loader.outcome().unwrap().skills;
    assert_eq!(skills.len(), 1);
    assert_eq!(skills[0].path, path("/c/SKILL.md"));
    assert_eq!(skills[0].short_description.as_deref(), Some("s"));
}

#[test]
fn a_reply_of_another_kind_changes_nothing() {
    let loader = load_skills_from_roots(vec![root("/r", SkillScope::Repo)]);
    let loader = loader.resume(Reply::IsDir(true));
    let loader = loader.resume(Reply::Entries(None));
    let loader = loader.resume(Reply::Contents(Err("no".to_string())));
    let loader = loader.resume(Reply::Parsed(Err("no".to_string())));
    assert_eq!(loader.request(), Request::Resolve(path("/r")));
    assert_eq!(
        load_skills_from_roots(vec![root("/r", SkillScope::Repo)]).outcome(),
        None
    );
    let loader = loader.resume(Reply::Resolved(None));
    assert_eq!(loader.request(), Request::Finished);
    let loader = loader.resume(Reply::Resolved(Some(path("/x"))));
    assert_eq!(
        loader.outcome(),
        Some(SkillLoadOutcome {
            skills: vec![],
            errors: vec![],
        })
    );
}

#[test]
fn no_roots_no_skills() {
    let outcome = load_skills_from_roots(vec![]).outcome().unwrap();
    assert_eq!(outcome.skills, vec![]);
    assert_eq!(outcome.errors, Vec::<SkillError>::new());
}

#[test]
fn skills_are_ordered_by_scope_then_name() {
    let found = [
        ("b", SkillScope::Admin),
        ("ab", SkillScope::User),
        ("z", SkillScope::Repo),
        ("a", SkillScope::User),
        ("m", SkillScope::System),
        ("B", SkillScope::User),
        ("z", SkillScope::User),
        ("a\u{e9}", SkillScope::User),
        ("\u{1F4A1}", SkillScope::User),
        ("\u{ff5e}", SkillScope::User),
        ("y", SkillScope::Repo),
    ];
    let skills = found
        .iter()
        .enumerate()
        .map(|(i, (name, scope))| skill(name, "d", path(&format!("/{i}")), *scope))
        .collect();
    let order: Vec<(String, SkillScope, String)> = merge_skills(skills)
        .into_iter()
        .map(|s| (s.name, s.scope, text(&s.path)))
        .collect();
    let expected = [
        ("y", SkillScope::Repo, "/10"),
        ("z", SkillScope::Repo, "/2"),
        ("B", SkillScope::User, "/5"),
        ("a", SkillScope::User, "/3"),
        ("ab", SkillScope::User, "/1"),
        ("a\u{e9}", SkillScope::User, "/7"),
        ("\u{ff5e}", SkillScope::User, "/9"),
        ("\u{1F4A1}", SkillScope::User, "/8"),
        ("m", SkillScope::System, "/4"),
        ("b", SkillScope::Admin, "/0"),
    ];
    let expected: Vec<(String, SkillScope, String)> = expected
        .iter()
        .map(|(name, scope, path)| (name.to_string(), *scope, path.to_string()))
        .collect();
    assert_eq!(order, expected);

    let mut names: Vec<String> = order
        .iter()
        .filter(|s| s.1 == SkillScope::User)
        .map(|s| s.0.clone())
        .collect();
    let placed = names.clone();
    names.sort();
    assert_eq!(names, placed);
}
