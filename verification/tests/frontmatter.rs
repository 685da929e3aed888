//! Finding, normalizing and checking the frontmatter of a skill file.
use skill_loader::frontmatter::{
    extract_frontmatter, frontmatter_source, needs_quoting, normalize_frontmatter_yaml,
    sanitize_single_line, skill_fields, validate_field, SkillFrontmatter,
    SkillFrontmatterMetadata, SkillParseError, MAX_DESCRIPTION_LEN, MAX_NAME_LEN,
    MAX_SHORT_DESCRIPTION_LEN,
};

fn raw(name: &str, description: &str, short_description: Option<&str>) -> SkillFrontmatter {
    SkillFrontmatter {
        name: name.to_string(),
        description: description.to_string(),
        metadata: SkillFrontmatterMetadata {
            short_description: short_description.map(|s| s.to_string()),
        },
    }
}

fn message(r: Result<impl std::fmt::Debug, SkillParseError>) -> String {
    r.unwrap_err().message()
}

#[test]
fn test_normalize_frontmatter_yaml() {
    // Test that colons in values are properly handled
    let input = "name: test-skill\ndescription: Use when prompt: `pattern` appears";
    let output = normalize_frontmatter_yaml(input);
    assert!(
        output.contains("description: \"Use when prompt: `pattern` appears\""),
        "Expected quoted description, got: {}",
        output
    );

    // Test that backslashes and colons are properly escaped
    let input = "name: test\ndescription: Use when prompt: `\\d+` appears";
    let output = normalize_frontmatter_yaml(input);
    assert!(
        output.contains(r#"description: "Use when prompt: `\\d+` appears""#),
        "Expected escaped backslashes, got: {}",
        output
    );

    // Test that already quoted values are not double-quoted
    let input = "name: test\ndescription: \"already quoted: value\"";
    let output = normalize_frontmatter_yaml(input);
    assert_eq!(input, output, "Already quoted values should not change");

    // Test that block scalar syntax is preserved
    let input = "name: test\ndescription: |-\n  multiline\n  value: with colon";
    let output = normalize_frontmatter_yaml(input);
    assert_eq!(input, output, "Block scalar syntax should be preserved");

    // Test that simple values without special chars are unchanged
    let input = "name: test-skill\ndescription: A simple description";
    let output = normalize_frontmatter_yaml(input);
    assert_eq!(input, output, "Simple values should not change");
}

#[test]
fn quotes_and_backslashes_are_escaped_in_quoted_values() {
    assert_eq!(
        normalize_frontmatter_yaml("description:  say \"a\\b\": c  "),
        "description: \"say \\\"a\\\\b\\\": c\""
    );
}

#[test]
fn each_special_character_asks_for_quotes() {
    for c in [':', '{', '}', '[', ']', ',', '#'] {
        assert!(needs_quoting(&format!("a{c}b")), "{c}");
        assert_eq!(
            normalize_frontmatter_yaml(&format!("k: a{c}b")),
            format!("k: \"a{c}b\"")
        );
    }
    assert!(needs_quoting("use when prompt: `pattern`"));
    assert!(!needs_quoting(""));
    assert!(!needs_quoting("plain words; `code` - and \"quotes\" | \\ ' *"));
}

#[test]
fn lines_that_are_kept() {
    for line in [
        "",
        "   \t ",
        "no colon, but a comma",
        "- item: a, b",
        "   - item: a, b",
        "key: 'quoted: value'",
        "key: |+",
        "key: | # comment",
        "key : a, b",
        "key:",
        "key:   ",
    ] {
        assert_eq!(normalize_frontmatter_yaml(line), line);
    }
}

#[test]
fn lines_that_only_look_like_items_or_lack_a_key_are_normalized() {
    assert_eq!(normalize_frontmatter_yaml("-a:b,c"), "-a: \"b,c\"");
    assert_eq!(normalize_frontmatter_yaml(":x:"), ": \"x:\"");
}

#[test]
fn nested_lines_are_kept() {
    for yaml in [
        "metadata:\n  short-description: a: b",
        "name: a\n key: b, c",
        "\n# comment\nname: a\n\tkey: [b]",
        "name: a\n\u{3000}key: #",
        "  metadata:\n   key: a, b",
    ] {
        assert_eq!(normalize_frontmatter_yaml(yaml), yaml);
    }
}

#[test]
fn top_level_keys_may_be_indented() {
    for (yaml, normalized) in [
        ("  key: a, b", "  key: \"a, b\""),
        ("\tkey: [a]", "\tkey: \"[a]\""),
        ("\u{3000}key: #", "\u{3000}key: \"#\""),
        (
            "  name: a\n  description: b: c",
            "  name: a\n  description: \"b: c\"",
        ),
        (
            "  name: a\n  metadata:\n    short-description: b: c\n  other: d, e",
            "  name: a\n  metadata:\n    short-description: b: c\n  other: \"d, e\"",
        ),
        (
            "  description: |\n    a: {b}\n  other: c, d",
            "  description: |\n    a: {b}\n  other: \"c, d\"",
        ),
        ("  name: a\nother: b, c", "  name: a\nother: \"b, c\""),
    ] {
        assert_eq!(normalize_frontmatter_yaml(yaml), normalized);
        assert_eq!(normalize_frontmatter_yaml(normalized), normalized);
    }
}

#[test]
fn blank_lines_and_comments_do_not_set_the_indent() {
    assert_eq!(
        normalize_frontmatter_yaml("\n# comment\n  key: a, b\n    nested: c, d"),
        "\n# comment\n  key: \"a, b\"\n    nested: c, d"
    );
    assert_eq!(
        normalize_frontmatter_yaml("    # comment\nkey: a, b\n  nested: c, d"),
        "    # comment\nkey: \"a, b\"\n  nested: c, d"
    );
}

#[test]
fn the_body_of_a_block_scalar_is_kept() {
    for yaml in [
        "description: |-\n  see: a, b",
        "description: |\n  a: {b}\n\n    c: [d] # e\n\tf: \"g\\h\", i",
        "description: |+\n  x: y, z\nname: plain",
    ] {
        assert_eq!(normalize_frontmatter_yaml(yaml), yaml);
    }
    assert_eq!(
        normalize_frontmatter_yaml("description: |-\n  see: a, b\nother: c, d"),
        "description: |-\n  see: a, b\nother: \"c, d\""
    );
}

#[test]
fn normalizing_twice_changes_nothing_more() {
    let once = normalize_frontmatter_yaml("name: a\ndescription: x: \"y\" \\ z\nother: [1, 2]");
    assert_eq!(
        once,
        "name: a\ndescription: \"x: \\\"y\\\" \\\\ z\"\nother: \"[1, 2]\""
    );
    assert_eq!(normalize_frontmatter_yaml(&once), once);
}

#[test]
fn line_endings_are_unified() {
    assert_eq!(normalize_frontmatter_yaml("a\r\nb\nc\r"), "a\nb\nc\r");
    assert_eq!(normalize_frontmatter_yaml("a\r\r\nb"), "a\r\nb");
    assert_eq!(normalize_frontmatter_yaml("a\n\n"), "a\n");
    assert_eq!(normalize_frontmatter_yaml("\n"), "");
    assert_eq!(normalize_frontmatter_yaml(""), "");
}

#[test]
fn frontmatter_is_found_between_delimiters() {
    assert_eq!(
        extract_frontmatter("---\nname: a\ndescription: b\n---\n\n# Body\n---\n").as_deref(),
        Some("name: a\ndescription: b")
    );
    assert_eq!(
        extract_frontmatter("  ---\t\r\nname: a\r\n\u{a0}---").as_deref(),
        Some("name: a")
    );
    assert_eq!(extract_frontmatter("---\n\n---\n").as_deref(), Some(""));
    assert_eq!(extract_frontmatter("---\n----\n---").as_deref(), Some("----"));
}

#[test]
fn frontmatter_that_is_written_is_found() {
    for yaml in ["name: a", "", "a\n\nb", "\n", "a\rb: c\n  - d"] {
        let contents = format!("---\n{yaml}\n---\nrest\n---\n");
        assert_eq!(extract_frontmatter(&contents).as_deref(), Some(yaml));
    }
    assert_eq!(extract_frontmatter("---\na\r\n---\n").as_deref(), Some("a"));
}

#[test]
fn frontmatter_is_missing() {
    for contents in [
        "",
        "\n---\na\n---\n",
        "name: a\n---\n",
        "---",
        "---\n",
        "---\n---\n",
        "---\nname: bad",
        "--\na\n--\n",
        "----\na\n----\n",
        "--- a\nb\n---\n",
    ] {
        assert_eq!(extract_frontmatter(contents), None, "{contents:?}");
        assert_eq!(
            frontmatter_source(contents),
            Err(SkillParseError::MissingFrontmatter)
        );
    }
}

#[test]
fn source_is_normalized_frontmatter() {
    assert_eq!(
        frontmatter_source("---\nname: a\ndescription: b: c\n---\n"),
        Ok("name: a\ndescription: \"b: c\"".to_string())
    );
}

#[test]
fn words_are_put_on_a_single_line() {
    assert_eq!(sanitize_single_line(""), "");
    assert_eq!(sanitize_single_line(" \n\t "), "");
    assert_eq!(sanitize_single_line("one"), "one");
    assert_eq!(
        sanitize_single_line("  does\tthings \r\n carefully\u{3000}\u{1F4A1} "),
        "does things carefully \u{1F4A1}"
    );
    let once = sanitize_single_line("\na  b\u{85}c");
    assert_eq!(once, "a b c");
    assert_eq!(sanitize_single_line(&once), once);
}

#[test]
fn white_space_is_that_of_unicode() {
    let spaces: Vec<char> = "\u{9}\u{a}\u{b}\u{c}\u{d}\u{20}\u{85}\u{a0}\u{1680}\u{2000}\u{2001}\
        \u{2002}\u{2003}\u{2004}\u{2005}\u{2006}\u{2007}\u{2008}\u{2009}\u{200a}\u{2028}\u{2029}\
        \u{202f}\u{205f}\u{3000}"
        .chars()
        .collect();
    assert_eq!(spaces.len(), 25);
    for c in '\u{0}'..=char::MAX {
        let line = sanitize_single_line(&format!("a{c}b"));
        if spaces.contains(&c) {
            assert_eq!(line, "a b");
        } else {
            assert_eq!(line, format!("a{c}b"));
        }
    }
}

#[test]
fn fields_are_checked_by_characters() {
    assert_eq!(validate_field("x", 1, "name"), Ok(()));
    assert_eq!(validate_field("\u{1F4A1}\u{1F4A1}", 2, "name"), Ok(()));
    assert_eq!(
        validate_field("", 5, "name"),
        Err(SkillParseError::MissingField("name"))
    );
    assert_eq!(
        validate_field("abc", 2, "name"),
        Err(SkillParseError::InvalidField {
            field: "name",
            reason: "exceeds maximum length of 2 characters".to_string(),
        })
    );
    assert_eq!(
        message(validate_field("x", 0, "f")),
        "invalid f: exceeds maximum length of 0 characters"
    );
}

#[test]
fn messages_of_all_errors() {
    assert_eq!(
        SkillParseError::Read("gone".to_string()).message(),
        "failed to read file: gone"
    );
    assert_eq!(
        SkillParseError::MissingFrontmatter.message(),
        "missing YAML frontmatter delimited by ---"
    );
    assert_eq!(
        SkillParseError::InvalidYaml("bad".to_string()).message(),
        "invalid YAML: bad"
    );
    assert_eq!(
        SkillParseError::MissingField("name").message(),
        "missing field `name`"
    );
    let too_long = "x".repeat(MAX_DESCRIPTION_LEN + 1);
    assert_eq!(
        message(validate_field(&too_long, MAX_DESCRIPTION_LEN, "description")),
        "invalid description: exceeds maximum length of 1024 characters"
    );
}

#[test]
fn skill_fields_are_single_lines_within_limits() {
    let fields = skill_fields(&raw(" a\nb ", "c \t d", Some(" e\n"))).unwrap();
    assert_eq!(fields.name, "a b");
    assert_eq!(fields.description, "c d");
    assert_eq!(fields.short_description.as_deref(), Some("e"));

    let fields = skill_fields(&raw("a", "b", Some(" \n "))).unwrap();
    assert_eq!(fields.short_description, None);
    let fields = skill_fields(&raw("a", "b", None)).unwrap();
    assert_eq!(fields.short_description, None);

    let longest = skill_fields(&raw(
        &"n".repeat(MAX_NAME_LEN),
        &"d".repeat(MAX_DESCRIPTION_LEN),
        Some(&"s".repeat(MAX_SHORT_DESCRIPTION_LEN)),
    ))
    .unwrap();
    assert_eq!(longest.name.len(), 64);
    assert_eq!(longest.description.len(), 1024);
}

#[test]
fn the_first_wrong_field_is_reported() {
    assert_eq!(message(skill_fields(&raw(" ", "", None))), "missing field `name`");
    assert_eq!(
        message(skill_fields(&raw(&"n".repeat(MAX_NAME_LEN + 1), "", None))),
        "invalid name: exceeds maximum length of 64 characters"
    );
    assert_eq!(
        message(skill_fields(&raw("a", "\n", Some(&"s".repeat(2000))))),
        "missing field `description`"
    );
    assert_eq!(
        message(skill_fields(&raw("a", "b", Some(&"s".repeat(1025))))),
        "invalid metadata.short-description: exceeds maximum length of 1024 characters"
    );
}
