# skill_loader

Finds skills on disk. A skill is a directory with a file `SKILL.md`, which begins with a YAML
frontmatter:

    ---
    name: address-bug
    description: Addresses technical bugs from an issue tracker.
    metadata:
      short-description: Fixes bugs
    ---

- `src/` is the library, verified with Verus. It touches no file: a `Loader` says what it needs
  to know, is told, and goes on, until it has the skills and the failures.
  - `config`: the directories to search that follow from the configuration layers.
  - `loader`: the search.
  - `frontmatter`, `text`: the frontmatter of a skill file and the text functions under it.
  - `merge`: which of the skills with the same name is kept, and the order of the result.
  - `model`: skills, scopes, paths, failures.
  - `disk`, `search_laws`, `text_laws`: what the search finds on a given file system, and the
    laws that hold of the whole.
- `tests/` runs the library on files in memory.
- `app/` answers the loader from the real file system, and parses the YAML with `serde_yaml`.
