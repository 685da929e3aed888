//! The frontmatter of a skill file: finding it, preparing its YAML, checking its fields.
use vstd::prelude::*;

use crate::text::{
    append_chars, begins_with, chars_of, find_char, join_chars, same_chars, split_lines,
    split_words, string_of, trim_both, trim_front,
};

verus! {

use crate::text::{
    first_index, join, lemma_join_push, lemma_trim_start_len, lines, starts_with, texts, trim,
    trim_start, words,
};

/// The longest name of a skill, in characters.
pub const MAX_NAME_LEN: usize = 64;

/// The longest description of a skill, in characters.
pub const MAX_DESCRIPTION_LEN: usize = 1024;

/// The longest short description of a skill, in characters.
pub const MAX_SHORT_DESCRIPTION_LEN: usize = MAX_DESCRIPTION_LEN;

/// The frontmatter of a skill file as its YAML gives it.
#[derive(Debug, PartialEq, Eq)]
pub struct SkillFrontmatter {
    pub name: String,
    pub description: String,
    pub metadata: SkillFrontmatterMetadata,
}

/// The optional `metadata` of a skill's frontmatter.
#[derive(Debug, PartialEq, Eq)]
pub struct SkillFrontmatterMetadata {
    /// The value of the key `short-description`.
    pub short_description: Option<String>,
}

/// The fields of a skill, each on a single line and within its limits.
#[derive(Debug, PartialEq, Eq)]
pub struct SkillFields {
    pub name: String,
    pub description: String,
    pub short_description: Option<String>,
}

/// Why a skill file gives no skill.
#[derive(Debug, PartialEq, Eq)]
pub enum SkillParseError {
    /// The file could not be read; the text says why.
    Read(String),
    /// The file does not begin with a frontmatter.
    MissingFrontmatter,
    /// The frontmatter is no YAML of the expected shape; the text says why.
    InvalidYaml(String),
    /// The field has no text.
    MissingField(&'static str),
    /// The field's text is not acceptable.
    InvalidField { field: &'static str, reason: String },
}

/// The texts of a skill's frontmatter.
pub struct SkillText {
    pub name: Seq<char>,
    pub description: Seq<char>,
    pub short_description: Option<Seq<char>>,
}

/// What a `SkillParseError` says.
pub enum ParseFailure {
    Read(Seq<char>),
    MissingFrontmatter,
    InvalidYaml(Seq<char>),
    MissingField(Seq<char>),
    InvalidField { field: Seq<char>, reason: Seq<char> },
}

/// The text of an optional string.
pub open spec fn text_of(s: Option<String>) -> Option<Seq<char>> {
    match s {
        Some(s) => Some(s@),
        None => None,
    }
}

impl View for SkillFrontmatter {
    type V = SkillText;

    open spec fn view(&self) -> SkillText {
        SkillText {
            name: self.name@,
            description: self.description@,
            short_description: text_of(self.metadata.short_description),
        }
    }
}

impl View for SkillFields {
    type V = SkillText;

    open spec fn view(&self) -> SkillText {
        SkillText {
            name: self.name@,
            description: self.description@,
            short_description: text_of(self.short_description),
        }
    }
}

impl View for SkillParseError {
    type V = ParseFailure;

    open spec fn view(&self) -> ParseFailure {
        match self {
            SkillParseError::Read(reason) => ParseFailure::Read(reason@),
            SkillParseError::MissingFrontmatter => ParseFailure::MissingFrontmatter,
            SkillParseError::InvalidYaml(reason) => ParseFailure::InvalidYaml(reason@),
            SkillParseError::MissingField(field) => ParseFailure::MissingField(field@),
            SkillParseError::InvalidField { field, reason } => ParseFailure::InvalidField {
                field: field@,
                reason: reason@,
            },
        }
    }
}

impl ParseFailure {
    /// The sentence that tells the user what is wrong.
    pub open spec fn message(self) -> Seq<char> {
        match self {
            ParseFailure::Read(reason) => "failed to read file: "@ + reason,
            ParseFailure::MissingFrontmatter => "missing YAML frontmatter delimited by ---"@,
            ParseFailure::InvalidYaml(reason) => "invalid YAML: "@ + reason,
            ParseFailure::MissingField(field) => "missing field `"@ + field + "`"@,
            ParseFailure::InvalidField { field, reason } => "invalid "@ + field + ": "@ + reason,
        }
    }
}

/// The decimal digits of `n`.
pub open spec fn decimal(n: nat) -> Seq<char>
    decreases n,
{
    if n < 10 {
        seq![(48 + n) as char]
    } else {
        decimal(n / 10).push((48 + n % 10) as char)
    }
}

/// The sentence about a text of more than `max_len` characters.
pub open spec fn too_long(max_len: nat) -> Seq<char> {
    "exceeds maximum length of "@ + decimal(max_len) + " characters"@
}

/// What is wrong with the text of a field, if anything is.
pub open spec fn field_failure(value: Seq<char>, max_len: nat, field: Seq<char>) -> Option<
    ParseFailure,
> {
    if value.len() == 0 {
        Some(ParseFailure::MissingField(field))
    } else if value.len() > max_len {
        Some(ParseFailure::InvalidField { field, reason: too_long(max_len) })
    } else {
        None
    }
}

/// The words of `raw` on one line, with one space between each two.
pub open spec fn single_line(raw: Seq<char>) -> Seq<char> {
    join(words(raw), seq![' '])
}

/// The texts with each on a single line; a short description without words is none.
pub open spec fn single_lines(raw: SkillText) -> SkillText {
    SkillText {
        name: single_line(raw.name),
        description: single_line(raw.description),
        short_description: match raw.short_description {
            Some(short) => if single_line(short).len() == 0 {
                None
            } else {
                Some(single_line(short))
            },
            None => None,
        },
    }
}

/// The fields of a skill with this frontmatter, or the first thing that is wrong with them.
pub open spec fn checked_fields(raw: SkillText) -> Result<SkillText, ParseFailure> {
    let fields = single_lines(raw);
    let name = field_failure(fields.name, MAX_NAME_LEN as nat, "name"@);
    let description = field_failure(
        fields.description,
        MAX_DESCRIPTION_LEN as nat,
        "description"@,
    );
    let short_description = match fields.short_description {
        Some(short) => field_failure(
            short,
            MAX_SHORT_DESCRIPTION_LEN as nat,
            "metadata.short-description"@,
        ),
        None => None,
    };
    if name is Some {
        Err(name->0)
    } else if description is Some {
        Err(description->0)
    } else if short_description is Some {
        Err(short_description->0)
    } else {
        Ok(fields)
    }
}

/// Whether a line opens or closes a frontmatter.
pub open spec fn is_delimiter(line: Seq<char>) -> bool {
    trim(line) == "---"@
}

/// The position of the first delimiter among `lines`, or their number if there is none.
pub open spec fn first_delimiter(lines: Seq<Seq<char>>) -> nat
    decreases lines.len(),
{
    if lines.len() == 0 || is_delimiter(lines[0]) {
        0
    } else {
        1 + first_delimiter(lines.drop_first())
    }
}

/// The lines between the delimiter on the first line and the next one, if they are there.
pub open spec fn frontmatter(contents: Seq<char>) -> Option<Seq<char>> {
    let all = lines(contents);
    let after = all.drop_first();
    let end = first_delimiter(after);
    if all.len() == 0 || !is_delimiter(all[0]) || end == 0 || end >= after.len() {
        None
    } else {
        Some(join(after.take(end as int), seq!['\n']))
    }
}

/// Whether `c` has a meaning of its own in a plain YAML value.
pub open spec fn special(c: char) -> bool {
    c == ':' || c == '{' || c == '}' || c == '[' || c == ']' || c == ',' || c == '#'
}

/// Whether `value` holds a character with a meaning of its own.
pub open spec fn quoting_needed(value: Seq<char>) -> bool {
    exists|i: int| 0 <= i < value.len() && special(#[trigger] value[i])
}

/// `value` as it stands between double quotes: each backslash and each double quote has a
/// backslash in front.
pub open spec fn escaped(value: Seq<char>) -> Seq<char>
    decreases value.len(),
{
    if value.len() == 0 {
        seq![]
    } else {
        let c = value.last();
        if c == '\\' || c == '"' {
            escaped(value.drop_last()).push('\\').push(c)
        } else {
            escaped(value.drop_last()).push(c)
        }
    }
}

/// How many characters of white space stand at the front of a line.
pub open spec fn indent(line: Seq<char>) -> int {
    line.len() - trim_start(line).len()
}

/// Whether a line holds more than white space and a comment.
pub open spec fn has_content(line: Seq<char>) -> bool {
    trim_start(line).len() > 0 && trim_start(line)[0] != '#'
}

/// The indent of the top-level keys: that of the first of these lines with content, if there is
/// one.
pub open spec fn top_indent(before: Seq<Seq<char>>) -> Option<int>
    decreases before.len(),
{
    if before.len() == 0 {
        None
    } else {
        match top_indent(before.drop_last()) {
            Some(top) => Some(top),
            None => if has_content(before.last()) {
                Some(indent(before.last()))
            } else {
                None
            },
        }
    }
}

/// Whether a line belongs to the value of a top-level key: it is indented deeper than these
/// keys are. So are nested keys and the body of a block scalar.
pub open spec fn is_nested(line: Seq<char>, top: Option<int>) -> bool {
    top matches Some(top) && indent(line) > top
}

/// Whether a line is left alone whatever its value: it is blank or an item of a list, it has
/// no colon, it is nested or in the body of a block scalar, the value is quoted or begins a
/// block scalar, or white space stands before the colon. The top-level keys before the line
/// have the indent `top`.
pub open spec fn kept_line(line: Seq<char>, top: Option<int>) -> bool {
    let colon = first_index(line, ':') as int;
    let key = trim_start(line.take(colon));
    let value = trim_start(line.skip(colon + 1));
    ||| trim(line).len() == 0
    ||| starts_with(trim_start(line), seq!['-', ' '])
    ||| colon >= line.len()
    ||| is_nested(line, top)
    ||| value.len() > 0 && (value[0] == '|' || value[0] == '"' || value[0] == '\'')
    ||| key != trim(key)
}

/// The line with its value between double quotes where the value needs them.
pub open spec fn normalized_line(line: Seq<char>, top: Option<int>) -> Seq<char> {
    let colon = first_index(line, ':') as int;
    let value = trim(line.skip(colon + 1));
    if kept_line(line, top) || !quoting_needed(value) {
        line
    } else {
        line.take(colon) + seq![':', ' ', '"'] + escaped(value) + seq!['"']
    }
}

/// The lines of a frontmatter, each normalized.
pub open spec fn normalized_lines(all: Seq<Seq<char>>) -> Seq<Seq<char>> {
    Seq::new(all.len(), |i: int| normalized_line(all[i], top_indent(all.take(i))))
}

/// The frontmatter with each line normalized.
pub open spec fn normalized(yaml: Seq<char>) -> Seq<char> {
    join(normalized_lines(lines(yaml)), seq!['\n'])
}

/// The YAML to be parsed for a file with these contents, if it has a frontmatter.
pub open spec fn yaml_source(contents: Seq<char>) -> Option<Seq<char>> {
    match frontmatter(contents) {
        Some(yaml) => Some(normalized(yaml)),
        None => None,
    }
}

/// Whether a line opens or closes a frontmatter.
fn delimits(line: &[char]) -> (r: bool)
    ensures
        r == is_delimiter(line@),
{
    let dashes: Vec<char> = chars_of("---");
    same_chars(trim_both(line), dashes.as_slice())
}

/// The frontmatter of a file: the lines between the delimiter `---` on the first line and the
/// next delimiter. There is none if either delimiter is missing or nothing stands between them.
pub fn extract_frontmatter(contents: &str) -> (r: Option<String>)
    ensures
        text_of(r) == frontmatter(contents@),
{
    let text: Vec<char> = chars_of(contents);
    let all: Vec<&[char]> = split_lines(text.as_slice());
    if all.len() == 0 || !delimits(all[0]) {
        return None;
    }
    let ghost after = lines(contents@).drop_first();
    let mut at: usize = 1;
    assert(after.skip(0) =~= after);
    while at < all.len() && !delimits(all[at])
        invariant
            1 <= at <= all@.len(),
            texts(all@) == lines(contents@),
            after == lines(contents@).drop_first(),
            first_delimiter(after) == at - 1 + first_delimiter(after.skip(at - 1)),
        decreases all@.len() - at,
    {
        assert(lines(contents@)[at as int] == all@[at as int]@);
        assert(after.skip(at - 1)[0] == all@[at as int]@);
        assert(after.skip(at - 1).drop_first() =~= after.skip(at as int));
        at = at + 1;
    }
    proof {
        assert(lines(contents@)[0] == all@[0]@);
        if at < all@.len() {
            assert(lines(contents@)[at as int] == all@[at as int]@);
            assert(after.skip(at - 1)[0] == all@[at as int]@);
        }
        assert(first_delimiter(after) == at - 1);
    }
    if at == 1 || at >= all.len() {
        return None;
    }
    let body: &[&[char]] = &all.as_slice()[1..at];
    assert(texts(body@) =~= after.take(at - 1));
    Some(string_of(join_chars(body, '\n').as_slice()))
}

/// Whether a YAML value must be quoted: it holds a colon, a brace, a bracket, a comma or a
/// number sign.
pub fn needs_quoting(value: &str) -> (r: bool)
    ensures
        r == quoting_needed(value@),
{
    holds_special(chars_of(value).as_slice())
}

/// Whether `value` holds a character with a meaning of its own.
fn holds_special(value: &[char]) -> (r: bool)
    ensures
        r == quoting_needed(value@),
{
    for i in 0..value.len()
        invariant
            forall|j: int| 0 <= j < i ==> !special(#[trigger] value@[j]),
    {
        let c: char = value[i];
        if c == ':' || c == '{' || c == '}' || c == '[' || c == ']' || c == ',' || c == '#' {
            assert(special(value@[i as int]));
            return true;
        }
    }
    false
}

/// Adds `value` at the end of `to`, escaped for double quotes.
fn append_escaped(to: &mut Vec<char>, value: &[char])
    ensures
        final(to)@ == old(to)@ + escaped(value@),
{
    let ghost before = to@;
    for i in 0..value.len()
        invariant
            to@ == before + escaped(value@.take(i as int)),
    {
        let c: char = value[i];
        assert(value@.take(i + 1).drop_last() =~= value@.take(i as int));
        if c == '\\' || c == '"' {
            to.push('\\');
        }
        to.push(c);
        assert(to@ =~= before + escaped(value@.take(i + 1)));
    }
    assert(value@.take(value@.len() as int) =~= value@);
}

/// How many characters of white space stand at the front of a line.
fn indent_of(line: &[char]) -> (r: usize)
    ensures
        r == indent(line@),
{
    proof {
        lemma_trim_start_len(line@);
    }
    line.len() - trim_front(line).len()
}

/// Whether a line holds more than white space and a comment.
fn holds_content(line: &[char]) -> (r: bool)
    ensures
        r == has_content(line@),
{
    let start: &[char] = trim_front(line);
    start.len() > 0 && start[0] != '#'
}

/// An indent as a number.
spec fn indent_value(top: Option<usize>) -> Option<int> {
    match top {
        Some(top) => Some(top as int),
        None => None,
    }
}

/// The line with its value between double quotes where the value needs them. The top-level keys
/// before it have the indent `top`.
fn normalize_line(line: &[char], top: Option<usize>) -> (r: Vec<char>)
    ensures
        r@ == normalized_line(line@, indent_value(top)),
{
    let mut r: Vec<char> = Vec::new();
    let item: [char; 2] = ['-', ' '];
    assert(item@ =~= seq!['-', ' ']);
    let colon: usize = find_char(line, ':');
    let nested: bool = match top {
        Some(top) => indent_of(line) > top,
        None => false,
    };
    if trim_both(line).len() == 0 || begins_with(trim_front(line), &item) || colon >= line.len()
        || nested {
        append_chars(&mut r, line);
        return r;
    }
    let before: &[char] = &line[0..colon];
    let after: &[char] = &line[colon + 1..line.len()];
    assert(before@ =~= line@.take(colon as int));
    assert(after@ =~= line@.skip(colon + 1));
    let start: &[char] = trim_front(after);
    let key: &[char] = trim_front(before);
    let value: &[char] = trim_both(after);
    if start.len() > 0 && (start[0] == '|' || start[0] == '"' || start[0] == '\'')
        || !same_chars(key, trim_both(key)) || !holds_special(value) {
        append_chars(&mut r, line);
        return r;
    }
    append_chars(&mut r, before);
    r.push(':');
    r.push(' ');
    r.push('"');
    append_escaped(&mut r, value);
    r.push('"');
    assert(r@ =~= line@.take(colon as int) + seq![':', ' ', '"'] + escaped(value@) + seq!['"']);
    r
}

/// Quotes the values of the top-level keys of a frontmatter that hold special characters, such
/// as a colon, and would not parse as YAML without quotes. Lines that are blank, items of a
/// list, block scalars and values that are already quoted stay as they are. So do lines that
/// are indented deeper than the first key: nested keys and the body of a block scalar.
pub fn normalize_frontmatter_yaml(yaml: &str) -> (r: String)
    ensures
        r@ == normalized(yaml@),
{
    let text: Vec<char> = chars_of(yaml);
    let all: Vec<&[char]> = split_lines(text.as_slice());
    let ghost old_lines = lines(yaml@);
    let ghost new_lines = normalized_lines(old_lines);
    let mut r: Vec<char> = Vec::new();
    let mut top: Option<usize> = None;
    for i in 0..all.len()
        invariant
            texts(all@) == old_lines,
            new_lines == normalized_lines(old_lines),
            indent_value(top) == top_indent(old_lines.take(i as int)),
            r@ == join(new_lines.take(i as int), seq!['\n']),
    {
        let line: Vec<char> = normalize_line(all[i], top);
        proof {
            assert(old_lines[i as int] == all@[i as int]@);
            lemma_join_push(new_lines.take(i as int), line@, seq!['\n']);
            assert(new_lines.take(i as int).push(line@) =~= new_lines.take(i + 1));
            assert(old_lines.take(i + 1).drop_last() =~= old_lines.take(i as int));
        }
        if i > 0 {
            r.push('\n');
        }
        append_chars(&mut r, line.as_slice());
        assert(r@ =~= join(new_lines.take(i + 1), seq!['\n']));
        if top.is_none() && holds_content(all[i]) {
            top = Some(indent_of(all[i]));
        }
    }
    assert(new_lines.take(all@.len() as int) =~= new_lines);
    string_of(r.as_slice())
}

/// The words of `raw` on one line, with one space between each two.
pub fn sanitize_single_line(raw: &str) -> (r: String)
    ensures
        r@ == single_line(raw@),
{
    let text: Vec<char> = chars_of(raw);
    let all: Vec<&[char]> = split_words(text.as_slice());
    string_of(join_chars(all.as_slice(), ' ').as_slice())
}

/// Checks that the text of a field is neither empty nor longer than `max_len` characters.
pub fn validate_field(value: &str, max_len: usize, field_name: &'static str) -> (r: Result<
    (),
    SkillParseError,
>)
    ensures
        r is Ok <==> field_failure(value@, max_len as nat, field_name@) is None,
        r matches Err(e) ==> field_failure(value@, max_len as nat, field_name@) == Some(e@),
{
    let len: usize = value.unicode_len();
    if len == 0 {
        return Err(SkillParseError::MissingField(field_name));
    }
    if len > max_len {
        let mut reason: String = String::new();
        reason.append("exceeds maximum length of ");
        append_decimal(&mut reason, max_len);
        reason.append(" characters");
        return Err(SkillParseError::InvalidField { field: field_name, reason });
    }
    Ok(())
}

/// Adds the decimal digits of `n` at the end of `to`.
fn append_decimal(to: &mut String, n: usize)
    ensures
        final(to)@ == old(to)@ + decimal(n as nat),
    decreases n,
{
    if n >= 10 {
        append_decimal(to, n / 10);
    }
    let digit: u8 = 48 + (n % 10) as u8;
    to.push(digit as char);
}

/// The fields of a skill with this frontmatter: each on a single line, the name and the
/// description present, and all within their limits. Reports the first field that is not so.
pub fn skill_fields(parsed: &SkillFrontmatter) -> (r: Result<SkillFields, SkillParseError>)
    ensures
        match r {
            Ok(fields) => checked_fields(parsed@) == Ok::<SkillText, ParseFailure>(fields@),
            Err(e) => checked_fields(parsed@) == Err::<SkillText, ParseFailure>(e@),
        },
{
    let name: String = sanitize_single_line(parsed.name.as_str());
    let description: String = sanitize_single_line(parsed.description.as_str());
    let short_description: Option<String> = match &parsed.metadata.short_description {
        Some(raw) => {
            let short: String = sanitize_single_line(raw.as_str());
            if short.as_str().is_empty() {
                None
            } else {
                Some(short)
            }
        },
        None => None,
    };
    if let Err(e) = validate_field(name.as_str(), MAX_NAME_LEN, "name") {
        return Err(e);
    }
    if let Err(e) = validate_field(description.as_str(), MAX_DESCRIPTION_LEN, "description") {
        return Err(e);
    }
    if let Some(short) = &short_description {
        if let Err(e) = validate_field(
            short.as_str(),
            MAX_SHORT_DESCRIPTION_LEN,
            "metadata.short-description",
        ) {
            return Err(e);
        }
    }
    Ok(SkillFields { name, description, short_description })
}

/// The YAML to be parsed for a file with these contents: its frontmatter, normalized.
pub fn frontmatter_source(contents: &str) -> (r: Result<String, SkillParseError>)
    ensures
        match r {
            Ok(yaml) => yaml_source(contents@) == Some(yaml@),
            Err(e) => yaml_source(contents@) is None && e is MissingFrontmatter,
        },
{
    match extract_frontmatter(contents) {
        Some(yaml) => Ok(normalize_frontmatter_yaml(yaml.as_str())),
        None => Err(SkillParseError::MissingFrontmatter),
    }
}

impl SkillParseError {
    /// The sentence that tells the user what is wrong.
    pub fn message(&self) -> (r: String)
        ensures
            r@ == self@.message(),
    {
        let mut r: String = String::new();
        match self {
            SkillParseError::Read(reason) => {
                r.append("failed to read file: ");
                r.append(reason.as_str());
            },
            SkillParseError::MissingFrontmatter => {
                r.append("missing YAML frontmatter delimited by ---");
            },
            SkillParseError::InvalidYaml(reason) => {
                r.append("invalid YAML: ");
                r.append(reason.as_str());
            },
            SkillParseError::MissingField(field) => {
                r.append("missing field `");
                r.append(field);
                r.append("`");
            },
            SkillParseError::InvalidField { field, reason } => {
                r.append("invalid ");
                r.append(field);
                r.append(": ");
                r.append(reason.as_str());
            },
        }
        assert(r@ =~= self@.message());
        r
    }
}

} // verus!
