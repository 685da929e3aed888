//! What holds of frontmatters, told on the characters of their lines: which lines are changed
//! and how, which lines are delimiters, which fields are accepted, and what users are told.
use vstd::prelude::*;

verus! {

use crate::char_laws::{
    ends_solid, is_solid, law_blank_text_has_no_words, law_both_ends_are_trimmed,
    law_front_is_trimmed, law_number_is_read_back, law_single_line_keeps_characters,
    law_special_characters_need_quotes, number_of, starts_solid,
};
use crate::frontmatter::{
    checked_fields, decimal, field_failure, has_content, indent, is_delimiter, kept_line,
    normalized, normalized_line, normalized_lines, quoting_needed, single_line, top_indent,
    yaml_source, ParseFailure, SkillText,
};
use crate::text::{
    first_index, join, lemma_first_index_at, lines, starts_with, trim, trim_end, trim_start,
    white_space,
};
use crate::text_laws::{
    framed, is_blank, joinable, lacks, law_frontmatter_is_what_is_framed,
    law_quoted_line_keeps_value, lemma_lines_of_join, lemma_top_indent_at,
    lemma_top_indent_extends, lemma_trim_start_padded, read_quoted,
};

// Where lines begin and end.

proof fn lemma_trim_start_parts(s: Seq<char>)
    ensures
        0 <= indent(s) <= s.len(),
        trim_start(s) == s.skip(indent(s)),
        is_blank(s.take(indent(s))),
        starts_solid(trim_start(s)),
    decreases s.len(),
{
    if s.len() > 0 && white_space(s[0]) {
        let rest = s.drop_first();
        lemma_trim_start_parts(rest);
        assert(s.skip(indent(s)) =~= rest.skip(indent(rest)));
        assert forall|i: int| 0 <= i < indent(s) implies white_space(
            #[trigger] s.take(indent(s))[i],
        ) by {
            if i > 0 {
                assert(s[i] == rest.take(indent(rest))[i - 1]);
            }
        }
    } else {
        assert(s.skip(0) =~= s);
    }
}

proof fn lemma_trim_end_parts(s: Seq<char>)
    ensures
        trim_end(s).len() <= s.len(),
        trim_end(s) == s.take(trim_end(s).len() as int),
        is_blank(s.skip(trim_end(s).len() as int)),
    decreases s.len(),
{
    let m = trim_end(s).len() as int;
    if s.len() > 0 && white_space(s.last()) {
        let front = s.drop_last();
        lemma_trim_end_parts(front);
        assert(s.take(m) =~= front.take(m));
        assert forall|i: int| 0 <= i < s.skip(m).len() implies white_space(
            #[trigger] s.skip(m)[i],
        ) by {
            if i < front.skip(m).len() {
                assert(s.skip(m)[i] == front.skip(m)[i]);
            }
        }
    } else {
        assert(s.take(m) =~= s);
    }
}

/// Whether the first character of a line that is no white space stands at `n`.
pub open spec fn starts_at(line: Seq<char>, n: int) -> bool {
    0 <= n < line.len() && is_blank(line.take(n)) && !white_space(line[n])
}

/// Whether a line begins at `n` with something other than a comment.
pub open spec fn content_at(line: Seq<char>, n: int) -> bool {
    starts_at(line, n) && line[n] != '#'
}

/// Whether the line at `first` is the first with content, and begins at `n`.
pub open spec fn first_content(all: Seq<Seq<char>>, first: int, n: int) -> bool {
    &&& 0 <= first < all.len()
    &&& content_at(all[first], n)
    &&& forall|j: int, m: int| 0 <= j < first ==> !(#[trigger] content_at(all[j], m))
}

/// Whether something that begins at `m` on the line at `i` is on the top level: no line before
/// it has content, or the first that has begins no further left.
pub open spec fn on_top_level(all: Seq<Seq<char>>, i: int, m: int) -> bool {
    forall|first: int, n: int| first < i && #[trigger] first_content(all, first, n) ==> m <= n
}

proof fn lemma_starts_at(line: Seq<char>, n: int)
    requires
        starts_at(line, n),
    ensures
        indent(line) == n,
        trim_start(line) == line.skip(n),
{
    assert(line =~= line.take(n) + line.skip(n));
    law_front_is_trimmed(line.take(n), line.skip(n));
}

proof fn lemma_has_content(line: Seq<char>)
    ensures
        has_content(line) ==> content_at(line, indent(line)),
        forall|n: int| #[trigger] content_at(line, n) ==> has_content(line) && indent(line) == n,
{
    lemma_trim_start_parts(line);
    assert forall|n: int| #[trigger] content_at(line, n) implies has_content(line) && indent(line)
        == n by {
        lemma_starts_at(line, n);
    }
}

proof fn lemma_top_indent_absent(all: Seq<Seq<char>>, n: int)
    requires
        0 <= n <= all.len(),
        top_indent(all.take(n)) is None,
    ensures
        forall|j: int| 0 <= j < n ==> !has_content(#[trigger] all[j]),
    decreases n,
{
    if n > 0 {
        assert(all.take(n).drop_last() =~= all.take(n - 1));
        assert(all.take(n).last() == all[n - 1]);
        lemma_top_indent_absent(all, n - 1);
    }
}

/// The indent of the top-level keys is where the first line with content begins.
pub proof fn law_first_content_sets_the_indent(all: Seq<Seq<char>>, i: int)
    requires
        0 <= i <= all.len(),
    ensures
        forall|first: int, n: int| first < i && #[trigger] first_content(all, first, n)
            ==> top_indent(all.take(i)) == Some(n),
        top_indent(all.take(i)) matches Some(n) ==> exists|first: int| first < i
            && #[trigger] first_content(all, first, n),
    decreases i,
{
    assert forall|first: int, n: int| first < i && #[trigger] first_content(
        all,
        first,
        n,
    ) implies top_indent(all.take(i)) == Some(n) by {
        lemma_has_content(all[first]);
        assert(content_at(all[first], n));
        assert forall|j: int| 0 <= j < first implies !has_content(#[trigger] all[j]) by {
            lemma_has_content(all[j]);
            assert(!content_at(all[j], indent(all[j])));
        }
        lemma_top_indent_at(all, first);
        lemma_top_indent_extends(all, first + 1, i);
    }
    if i > 0 && top_indent(all.take(i)) is Some {
        law_first_content_sets_the_indent(all, i - 1);
        let n = top_indent(all.take(i))->0;
        assert(all.take(i).drop_last() =~= all.take(i - 1));
        assert(all.take(i).last() == all[i - 1]);
        if top_indent(all.take(i - 1)) is Some {
            let first = choose|first: int| first < i - 1 && #[trigger] first_content(
                all,
                first,
                n,
            );
            assert(first_content(all, first, n));
        } else {
            lemma_top_indent_absent(all, i - 1);
            lemma_has_content(all[i - 1]);
            assert forall|j: int, m: int| 0 <= j < i - 1 implies !(#[trigger] content_at(
                all[j],
                m,
            )) by {
                lemma_has_content(all[j]);
            }
            assert(first_content(all, i - 1, n));
        }
    }
}

// Lines that are changed, and lines that are not.

/// Whether a line is made of these parts: white space, a key, a colon, and a value with white
/// space around it.
pub open spec fn made_of(
    line: Seq<char>,
    pad: Seq<char>,
    key: Seq<char>,
    gap: Seq<char>,
    value: Seq<char>,
    tail: Seq<char>,
) -> bool {
    &&& line == pad + key + seq![':'] + gap + value + tail
    &&& is_blank(pad) && is_blank(gap) && is_blank(tail)
    &&& lacks(key, ':') && starts_solid(key) && ends_solid(key)
    &&& starts_solid(value) && ends_solid(value)
}

/// Whether a value has one of the characters in it that need quotes.
pub open spec fn holds_one(value: Seq<char>) -> bool {
    ||| value.contains(':')
    ||| value.contains('{')
    ||| value.contains('}')
    ||| value.contains('[')
    ||| value.contains(']')
    ||| value.contains(',')
    ||| value.contains('#')
}

/// Whether a value begins a block scalar or is quoted already.
pub open spec fn stands_by_itself(value: Seq<char>) -> bool {
    value.len() > 0 && (value[0] == '|' || value[0] == '"' || value[0] == '\'')
}

/// Whether a line that begins with this key is an item of a list.
pub open spec fn begins_item(key: Seq<char>) -> bool {
    key.len() > 1 && key[0] == '-' && key[1] == ' '
}

proof fn lemma_parts(
    line: Seq<char>,
    pad: Seq<char>,
    key: Seq<char>,
    gap: Seq<char>,
    value: Seq<char>,
    tail: Seq<char>,
)
    requires
        made_of(line, pad, key, gap, value, tail),
    ensures
        first_index(line, ':') == pad.len() + key.len(),
        line.take(first_index(line, ':') as int) == pad + key,
        trim_start(pad + key) == key,
        trim(key) == key,
        trim(line.skip(first_index(line, ':') as int + 1)) == value,
        value.len() > 0 ==> trim_start(line.skip(first_index(line, ':') as int + 1)) == value
            + tail,
        value.len() == 0 ==> trim_start(line.skip(first_index(line, ':') as int + 1)).len() == 0,
        indent(line) == pad.len(),
        trim(line).len() > 0,
        starts_with(trim_start(line), seq!['-', ' ']) == begins_item(key),
{
    let colon = (pad.len() + key.len()) as int;
    let nothing = Seq::<char>::empty();
    assert forall|i: int| 0 <= i < colon implies line[i] != ':' by {
        if i < pad.len() {
            assert(white_space(pad[i]));
            assert(line[i] == pad[i]);
        } else {
            assert(line[i] == key[i - pad.len()]);
        }
    }
    assert(line[colon] == ':');
    lemma_first_index_at(line, ':', colon);
    assert(line.take(colon) =~= pad + key);
    law_front_is_trimmed(pad, key);
    law_both_ends_are_trimmed(nothing, key, nothing);
    assert(nothing + key + nothing =~= key);
    let after = line.skip(colon + 1);
    assert(after =~= gap + value + tail);
    law_both_ends_are_trimmed(gap, value, tail);
    assert(after =~= gap + (value + tail));
    lemma_trim_start_padded(gap, value + tail);
    if value.len() == 0 {
        assert(value + tail =~= tail + nothing);
        lemma_trim_start_padded(tail, nothing);
    }
    let body = key + seq![':'] + gap + value + tail;
    assert(line =~= pad + body);
    assert(body[0] == if key.len() > 0 {
        key[0]
    } else {
        ':'
    });
    law_front_is_trimmed(pad, body);
    lemma_trim_end_parts(body);
    if trim_end(body).len() == 0 {
        assert(white_space(body.skip(0)[0]));
    }
    assert(starts_with(body, seq!['-', ' ']) == begins_item(key)) by {
        if begins_item(key) {
            assert(body.take(2) =~= seq!['-', ' ']);
        } else if starts_with(body, seq!['-', ' ']) {
            assert(body.take(2)[0] == '-' && body.take(2)[1] == ' ');
            assert(body[0] == '-' && body[1] == ' ');
            if key.len() == 1 {
                assert(body[1] == ':');
            } else if key.len() > 1 {
                assert(body[1] == key[1]);
            }
        }
    }
}

/// A line with a key on the top level that is no item of a list, and with a value that neither
/// begins a block scalar nor is quoted, is changed exactly if its value, however long, holds a
/// colon, a brace, a bracket, a comma or a number sign. It then keeps its indent and its key,
/// and what is read between its double quotes is the value. Any other line with a key stays as
/// it is.
pub proof fn law_special_values_are_quoted(
    all: Seq<Seq<char>>,
    i: int,
    pad: Seq<char>,
    key: Seq<char>,
    gap: Seq<char>,
    value: Seq<char>,
    tail: Seq<char>,
)
    requires
        0 <= i < all.len(),
        made_of(all[i], pad, key, gap, value, tail),
    ensures
        normalized_lines(all).len() == all.len(),
        normalized_lines(all)[i] != all[i] <==> {
            &&& on_top_level(all, i, pad.len() as int)
            &&& !begins_item(key)
            &&& !stands_by_itself(value)
            &&& holds_one(value)
        },
        normalized_lines(all)[i] != all[i] ==> {
            let out = normalized_lines(all)[i];
            let n = (pad.len() + key.len()) as int;
            &&& out.take(n) == pad + key
            &&& out.subrange(n, n + 3) == seq![':', ' ', '"']
            &&& read_quoted(out.skip(n + 3)) == Some(value)
        },
{
    let line = all[i];
    let top = top_indent(all.take(i));
    let out = normalized_line(line, top);
    let n = (pad.len() + key.len()) as int;
    lemma_parts(line, pad, key, gap, value, tail);
    law_special_characters_need_quotes(value);
    law_first_content_sets_the_indent(all, i);
    if top is Some {
        let first = choose|first: int| first < i && #[trigger] first_content(all, first, top->0);
        assert(first_content(all, first, top->0));
    }
    if value.len() > 0 {
        assert((value + tail)[0] == value[0]);
    }
    let quotes = on_top_level(all, i, pad.len() as int) && !begins_item(key)
        && !stands_by_itself(value) && holds_one(value);
    assert(quotes == (!kept_line(line, top) && quoting_needed(value)));
    if quotes {
        assert(out[n + 2] == '"');
        assert(value.len() > 0);
        if out == line {
            let after = line.skip(n + 1);
            assert(out[n + 1] == ' ');
            assert(after =~= gap + value + tail);
            assert(after[0] == ' ' && after[1] == '"');
            if gap.len() == 0 {
                assert(after[0] == value[0]);
            } else if gap.len() == 1 {
                assert(after[1] == value[0]);
            } else {
                assert(white_space(gap[1]));
            }
        }
    }
    if out != line {
        law_quoted_line_keeps_value(line, top);
    }
}

/// Lines without a colon stay as they are, and so do those with white space between the key and
/// the first colon.
pub proof fn law_lines_without_key_are_kept(all: Seq<Seq<char>>, i: int, colon: int)
    requires
        0 <= i < all.len(),
        lacks(all[i], ':') || {
            &&& 0 < colon < all[i].len()
            &&& all[i][colon] == ':'
            &&& lacks(all[i].take(colon), ':')
            &&& white_space(all[i][colon - 1])
            &&& !is_blank(all[i].take(colon))
        },
    ensures
        normalized_lines(all)[i] == all[i],
{
    let line = all[i];
    if lacks(line, ':') {
        lemma_first_index_at(line, ':', line.len() as int);
    } else {
        let before = line.take(colon);
        assert forall|j: int| 0 <= j < colon implies line[j] != ':' by {
            assert(line[j] == before[j]);
        }
        lemma_first_index_at(line, ':', colon);
        lemma_trim_start_parts(before);
        let key = trim_start(before);
        if key.len() == 0 {
            assert(before.take(indent(before)) =~= before);
        }
        assert(key.last() == line[colon - 1]);
        assert(trim_start(key) == key);
        lemma_trim_end_parts(key.drop_last());
        assert(trim(key).len() < key.len());
    }
    assert(kept_line(line, top_indent(all.take(i))));
}

/// A text is normalized line by line: the lines, each normalized, stand one below the other.
pub proof fn law_text_is_normalized_line_by_line(yaml: Seq<char>)
    ensures
        normalized(yaml) == join(normalized_lines(lines(yaml)), seq!['\n']),
        normalized_lines(lines(yaml)).len() == lines(yaml).len(),
{
}

/// Lines that are written one below the other are normalized one by one.
pub proof fn law_written_lines_are_normalized(all: Seq<Seq<char>>)
    requires
        joinable(all),
    ensures
        normalized(join(all, seq!['\n'])) == join(normalized_lines(all), seq!['\n']),
{
    lemma_lines_of_join(all);
}

// Delimiters.

/// Whether a line has three dashes at `k`, and nothing but white space around them.
pub open spec fn dashes_at(line: Seq<char>, k: int) -> bool {
    &&& 0 <= k <= line.len() - 3
    &&& line[k] == '-' && line[k + 1] == '-' && line[k + 2] == '-'
    &&& is_blank(line.take(k))
    &&& is_blank(line.skip(k + 3))
}

/// A line is a delimiter exactly if it has three dashes, with nothing but white space around
/// them.
pub proof fn law_delimiter_is_three_dashes(line: Seq<char>)
    ensures
        is_delimiter(line) <==> exists|k: int| #[trigger] dashes_at(line, k),
{
    reveal_strlit("---");
    let dashes = "---"@;
    if is_delimiter(line) {
        let k = indent(line);
        let body = trim_start(line);
        lemma_trim_start_parts(line);
        lemma_trim_end_parts(body);
        assert(body.take(3) == dashes);
        assert(line[k] == body.take(3)[0]);
        assert(line[k + 1] == body.take(3)[1]);
        assert(line[k + 2] == body.take(3)[2]);
        assert(line.skip(k + 3) =~= body.skip(3));
        assert(dashes_at(line, k));
    }
    assert forall|k: int| #[trigger] dashes_at(line, k) implies is_delimiter(line) by {
        let front = line.take(k);
        let back = line.skip(k + 3);
        law_both_ends_are_trimmed(front, dashes, back);
        assert(line =~= front + dashes + back);
    }
}

/// What is parsed of a file is its frontmatter, normalized; a file without one is not parsed.
pub proof fn law_source_is_normalized_frontmatter(contents: Seq<char>)
    ensures
        forall|body: Seq<Seq<char>>| #[trigger]
            framed(lines(contents), body) ==> yaml_source(contents) == Some(
                normalized(join(body, seq!['\n'])),
            ),
        yaml_source(contents) is Some ==> exists|body: Seq<Seq<char>>| #[trigger]
            framed(lines(contents), body),
{
    law_frontmatter_is_what_is_framed(contents);
}

// Fields.

/// Whether a text has a character that is no white space.
pub open spec fn has_word(s: Seq<char>) -> bool {
    exists|i: int| 0 <= i < s.len() && !white_space(#[trigger] s[i])
}

/// Whether a text of one line has at least one character, and no more than `max_len`.
pub open spec fn fits(s: Seq<char>, max_len: nat) -> bool {
    1 <= s.len() <= max_len
}

/// The name and the description of a skill are the given ones on a single line, and so is the
/// short description if it has a word. They are accepted exactly if the name has one to 64
/// characters, the description one to 1024, and the short description, where there is one, no
/// more than 1024.
pub proof fn law_fields_are_the_given_ones(raw: SkillText)
    ensures
        checked_fields(raw) is Ok <==> {
            &&& fits(single_line(raw.name), 64)
            &&& fits(single_line(raw.description), 1024)
            &&& raw.short_description matches Some(short) ==> single_line(short).len() <= 1024
        },
        checked_fields(raw) matches Ok(fields) ==> {
            &&& fields.name == single_line(raw.name)
            &&& fields.description == single_line(raw.description)
            &&& raw.short_description is None ==> fields.short_description is None
            &&& raw.short_description matches Some(short) ==> if has_word(short) {
                fields.short_description == Some(single_line(short))
            } else {
                fields.short_description is None
            }
        },
{
    if let Some(short) = raw.short_description {
        lemma_has_word(short);
    }
}

proof fn lemma_has_word(s: Seq<char>)
    ensures
        has_word(s) <==> single_line(s).len() > 0,
{
    law_single_line_keeps_characters(s);
    let kept = is_solid();
    if has_word(s) {
        let i = choose|i: int| 0 <= i < s.len() && !white_space(#[trigger] s[i]);
        s.lemma_filter_contains(kept, i);
        single_line(s).lemma_filter_len(kept);
    } else {
        assert(is_blank(s)) by {
            assert forall|i: int| 0 <= i < s.len() implies white_space(#[trigger] s[i]) by {}
        }
        law_blank_text_has_no_words(s);
    }
}

/// A field is accepted exactly if it has at least one character and no more than its limit.
/// Otherwise the user is told which field it is, and for one that is too long also the limit.
pub proof fn law_field_is_judged_by_its_length(value: Seq<char>, max_len: nat, field: Seq<char>)
    ensures
        field_failure(value, max_len, field) is None <==> fits(value, max_len),
        value.len() == 0 ==> field_failure(value, max_len, field)->0.message()
            == "missing field `"@ + field + "`"@,
        value.len() > 0 && value.len() > max_len ==> exists|digits: Seq<char>| #[trigger]
            number_of(digits) == max_len && field_failure(value, max_len, field)->0.message()
                == "invalid "@ + field + ": exceeds maximum length of "@ + digits
                + " characters"@,
{
    if value.len() > 0 && value.len() > max_len {
        law_number_is_read_back(max_len);
        reveal_strlit(": ");
        reveal_strlit("exceeds maximum length of ");
        reveal_strlit(": exceeds maximum length of ");
        let digits = decimal(max_len);
        assert(": exceeds maximum length of "@ =~= ": "@ + "exceeds maximum length of "@);
        assert(field_failure(value, max_len, field)->0.message() =~= "invalid "@ + field
            + ": exceeds maximum length of "@ + digits + " characters"@);
        assert(number_of(digits) == max_len);
    }
}

/// Of several fields that are wrong, the one that is reported is the name before the
/// description, and the description before the short description.
pub proof fn law_first_wrong_field_is_reported(raw: SkillText)
    ensures
        checked_fields(raw) matches Err(failure) ==> {
            let name = single_line(raw.name);
            let description = single_line(raw.description);
            if !fits(name, 64) {
                field_failure(name, 64, "name"@) == Some(failure)
            } else if !fits(description, 1024) {
                field_failure(description, 1024, "description"@) == Some(failure)
            } else {
                &&& raw.short_description is Some
                &&& field_failure(
                    single_line(raw.short_description->0),
                    1024,
                    "metadata.short-description"@,
                ) == Some(failure)
            }
        },
{
}

/// What the outside says of a failure reaches the user whole.
pub proof fn law_reason_reaches_the_user(reason: Seq<char>)
    ensures
        ParseFailure::Read(reason).message() == "failed to read file: "@ + reason,
        ParseFailure::InvalidYaml(reason).message() == "invalid YAML: "@ + reason,
        ParseFailure::MissingFrontmatter.message()
            == "missing YAML frontmatter delimited by ---"@,
{
}

} // verus!
