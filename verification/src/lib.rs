//! Loading of skills: directories with a file `SKILL.md` that tells what the skill is for.
//!
//! [`loader::load_skills`] starts a search through the directories that follow from the
//! configuration. The search is told what lies on disk, and ends with the skills that were
//! found, each name once, and with the files that gave none.
pub mod char_laws;
pub mod config;
pub mod disk;
pub mod frontmatter;
pub mod frontmatter_laws;
pub mod loader;
pub mod merge;
pub mod model;
pub mod search_laws;
pub mod text;
pub mod text_laws;
pub mod tree_laws;
pub mod view_laws;
