//! What holds of the texts of skill files: single lines, quoted values, normalized lines and
//! frontmatters.
use vstd::prelude::*;

verus! {

use crate::frontmatter::{
    escaped, first_delimiter, frontmatter, has_content, indent, is_delimiter, kept_line,
    normalized, normalized_line, normalized_lines, single_line, top_indent,
};
use crate::text::{
    first_index, join, lemma_first_index, lemma_first_index_at, lemma_word_len,
    lemma_word_len_at, lines, strip_return, trim, trim_end, trim_start, white_space, word_len,
    words,
};

// Texts on a single line.

/// Whether `w` is a word: not empty, and without white space.
spec fn is_word(w: Seq<char>) -> bool {
    w.len() > 0 && forall|i: int| 0 <= i < w.len() ==> !white_space(#[trigger] w[i])
}

spec fn all_words(ws: Seq<Seq<char>>) -> bool {
    forall|i: int| 0 <= i < ws.len() ==> is_word(#[trigger] ws[i])
}

proof fn lemma_words_are_words(s: Seq<char>)
    ensures
        all_words(words(s)),
    decreases s.len(),
{
    if s.len() > 0 {
        if white_space(s[0]) {
            lemma_words_are_words(s.drop_first());
        } else {
            let n = word_len(s);
            lemma_word_len(s);
            if n < s.len() {
                lemma_words_are_words(s.skip(n as int));
                let rest = words(s.skip(n as int));
                assert forall|i: int| 0 <= i < words(s).len() implies is_word(
                    #[trigger] words(s)[i],
                ) by {
                    if i > 0 {
                        assert(words(s)[i] == rest[i - 1]);
                    }
                }
            }
        }
    }
}

/// Joining, from the front.
pub proof fn lemma_join_front(parts: Seq<Seq<char>>, sep: Seq<char>)
    requires
        parts.len() > 1,
    ensures
        join(parts, sep) == parts[0] + sep + join(parts.drop_first(), sep),
    decreases parts.len(),
{
    let front = parts.drop_last();
    if parts.len() == 2 {
        assert(join(front, sep) == parts[0]);
        assert(join(parts.drop_first(), sep) == parts[1]);
    } else {
        lemma_join_front(front, sep);
        assert(front.drop_first() =~= parts.drop_first().drop_last());
        assert(join(parts, sep) =~= parts[0] + sep + join(parts.drop_first(), sep));
    }
}

proof fn lemma_words_of_join(ws: Seq<Seq<char>>)
    requires
        all_words(ws),
    ensures
        words(join(ws, seq![' '])) == ws,
    decreases ws.len(),
{
    let s = join(ws, seq![' ']);
    if ws.len() == 0 {
        assert(words(s) =~= ws);
    } else {
        let w = ws[0];
        assert(is_word(w));
        if ws.len() == 1 {
            lemma_word_len_at(s, s.len() as int);
            assert(words(s) =~= ws);
        } else {
            let rest = ws.drop_first();
            assert(all_words(rest)) by {
                assert forall|i: int| 0 <= i < rest.len() implies is_word(#[trigger] rest[i]) by {
                    assert(rest[i] == ws[i + 1]);
                }
            }
            lemma_words_of_join(rest);
            lemma_join_front(ws, seq![' ']);
            let tail = seq![' '] + join(rest, seq![' ']);
            assert(s =~= w + tail);
            assert forall|i: int| 0 <= i < w.len() implies !white_space(s[i]) by {
                assert(s[i] == w[i]);
            }
            lemma_word_len_at(s, w.len() as int);
            assert(s.take(w.len() as int) =~= w);
            assert(s.skip(w.len() as int) =~= tail);
            assert(tail.drop_first() =~= join(rest, seq![' ']));
            assert(!white_space(s[0]));
            assert(words(tail) == rest);
            assert(words(s) =~= ws);
        }
    }
}

/// Putting a text on a single line keeps its words, all of them and in order.
pub proof fn law_single_line_keeps_words(raw: Seq<char>)
    ensures
        words(single_line(raw)) == words(raw),
{
    lemma_words_are_words(raw);
    lemma_words_of_join(words(raw));
}

/// A text on a single line stays as it is when it is put on a single line again.
pub proof fn law_single_line_is_stable(raw: Seq<char>)
    ensures
        single_line(single_line(raw)) == single_line(raw),
{
    law_single_line_keeps_words(raw);
}

/// Whether the only white space in `s` is single spaces between other characters.
pub open spec fn tidy(s: Seq<char>) -> bool {
    &&& forall|i: int| 0 <= i < s.len() && white_space(#[trigger] s[i]) ==> s[i] == ' '
    &&& s.len() > 0 ==> !white_space(s[0]) && !white_space(s.last())
    &&& forall|i: int, j: int|
        0 <= i && j == i + 1 && j < s.len() ==> !(white_space(#[trigger] s[i]) && white_space(
            #[trigger] s[j],
        ))
}

proof fn lemma_join_tidy(ws: Seq<Seq<char>>)
    requires
        all_words(ws),
    ensures
        tidy(join(ws, seq![' '])),
        ws.len() > 0 ==> join(ws, seq![' ']).len() > 0,
    decreases ws.len(),
{
    let s = join(ws, seq![' ']);
    if ws.len() == 1 {
        assert(is_word(ws[0]));
    } else if ws.len() > 1 {
        let front = ws.drop_last();
        let w = ws.last();
        assert(is_word(ws[ws.len() - 1]));
        assert(all_words(front)) by {
            assert forall|i: int| 0 <= i < front.len() implies is_word(#[trigger] front[i]) by {
                assert(front[i] == ws[i]);
            }
        }
        lemma_join_tidy(front);
        let a = join(front, seq![' ']);
        assert(s =~= a + seq![' '] + w);
        assert(s[0] == a[0]);
        assert(s.last() == w.last());
        assert(a[a.len() - 1] == a.last());
        assert forall|i: int, j: int| 0 <= i && j == i + 1 && j < s.len() implies !(white_space(
            #[trigger] s[i],
        ) && white_space(#[trigger] s[j])) by {
            if j < a.len() {
                assert(s[i] == a[i] && s[j] == a[j]);
            } else if j == a.len() {
                assert(s[i] == a[i]);
            } else {
                assert(s[j] == w[j - a.len() - 1]);
            }
        }
        assert forall|i: int| 0 <= i < s.len() && white_space(#[trigger] s[i]) implies s[i]
            == ' ' by {
            if i < a.len() {
                assert(s[i] == a[i]);
            } else if i > a.len() {
                assert(s[i] == w[i - a.len() - 1]);
            }
        }
    }
}

/// A text on a single line has no white space but single spaces between its words, and in
/// particular no line break. It is empty only where the text has no words.
pub proof fn law_single_line_is_tidy(raw: Seq<char>)
    ensures
        tidy(single_line(raw)),
        single_line(raw).len() == 0 <==> words(raw).len() == 0,
{
    lemma_words_are_words(raw);
    lemma_join_tidy(words(raw));
}

// Values between double quotes.

/// The text that stands before the closing double quote at the end of `s`, with the
/// backslashes that escape taken away. There is none if `s` is not so closed, or if a backslash
/// stands before anything but a backslash or a double quote.
pub open spec fn read_quoted(s: Seq<char>) -> Option<Seq<char>>
    decreases s.len(),
{
    if s.len() == 0 {
        None
    } else if s[0] == '"' {
        if s.len() == 1 {
            Some(seq![])
        } else {
            None
        }
    } else if s[0] == '\\' {
        if s.len() < 2 || s[1] != '\\' && s[1] != '"' {
            None
        } else {
            match read_quoted(s.skip(2)) {
                Some(rest) => Some(seq![s[1]] + rest),
                None => None,
            }
        }
    } else {
        match read_quoted(s.drop_first()) {
            Some(rest) => Some(seq![s[0]] + rest),
            None => None,
        }
    }
}

spec fn escaped_char(c: char) -> Seq<char> {
    if c == '\\' || c == '"' {
        seq!['\\', c]
    } else {
        seq![c]
    }
}

proof fn lemma_escaped_front(value: Seq<char>)
    requires
        value.len() > 0,
    ensures
        escaped(value) == escaped_char(value[0]) + escaped(value.drop_first()),
    decreases value.len(),
{
    if value.len() == 1 {
        assert(value.drop_last() =~= seq![]);
        assert(value.drop_first() =~= seq![]);
        assert(escaped(value) =~= escaped_char(value[0]) + escaped(value.drop_first()));
    } else {
        lemma_escaped_front(value.drop_last());
        assert(value.drop_last().drop_first() =~= value.drop_first().drop_last());
        assert(escaped(value) =~= escaped_char(value[0]) + escaped(value.drop_first()));
    }
}

/// What is written between double quotes is read back as it was.
pub proof fn law_quoted_value_is_read_back(value: Seq<char>)
    ensures
        read_quoted(escaped(value).push('"')) == Some(value),
    decreases value.len(),
{
    let s = escaped(value).push('"');
    if value.len() == 0 {
        assert(read_quoted(s)->0 =~= value);
    } else {
        let c = value[0];
        let rest = value.drop_first();
        lemma_escaped_front(value);
        law_quoted_value_is_read_back(rest);
        assert(value =~= seq![c] + rest);
        if c == '\\' || c == '"' {
            assert(s.skip(2) =~= escaped(rest).push('"'));
        } else {
            assert(s.drop_first() =~= escaped(rest).push('"'));
        }
    }
}

// Lines, and their normalization.

/// Whether `c` does not occur in `s`.
pub open spec fn lacks(s: Seq<char>, c: char) -> bool {
    forall|i: int| 0 <= i < s.len() ==> #[trigger] s[i] != c
}

pub proof fn lemma_lines_concat(a: Seq<char>, b: Seq<char>)
    requires
        a.len() > 0,
        a.last() == '\n',
    ensures
        lines(a + b) == lines(a) + lines(b),
    decreases a.len(),
{
    let end = first_index(a, '\n') as int;
    lemma_first_index(a, '\n');
    assert(end < a.len()) by {
        if end == a.len() {
            assert(a[a.len() - 1] != '\n');
        }
    }
    let s = a + b;
    assert forall|i: int| 0 <= i < end implies s[i] != '\n' by {
        assert(s[i] == a[i]);
    }
    lemma_first_index_at(s, '\n', end);
    assert(s.take(end) =~= a.take(end));
    if end + 1 == a.len() {
        assert(s.skip(end + 1) =~= b);
        assert(a.skip(end + 1).len() == 0);
        assert(lines(a.skip(end + 1)) =~= seq![]);
        assert(lines(s) =~= lines(a) + lines(b));
    } else {
        let rest = a.skip(end + 1);
        assert(s.skip(end + 1) =~= rest + b);
        lemma_lines_concat(rest, b);
        assert(lines(s) =~= lines(a) + lines(b));
    }
}

pub proof fn lemma_lines_of_one(line: Seq<char>)
    requires
        lacks(line, '\n'),
    ensures
        lines(line.push('\n')) == seq![strip_return(line)],
{
    let s = line.push('\n');
    assert forall|i: int| 0 <= i < line.len() implies s[i] != '\n' by {
        assert(s[i] == line[i]);
    }
    lemma_first_index_at(s, '\n', line.len() as int);
    assert(s.take(line.len() as int) =~= line);
    assert(lines(s.skip(line.len() as int + 1)) =~= seq![]);
    assert(lines(s) =~= seq![strip_return(line)]);
}

/// Whether these are the lines of the text that joins them.
pub open spec fn joinable(all: Seq<Seq<char>>) -> bool {
    &&& all.len() > 0
    &&& forall|i: int| 0 <= i < all.len() ==> lacks(#[trigger] all[i], '\n')
    &&& forall|i: int| 0 <= i < all.len() - 1 ==> strip_return(#[trigger] all[i]) == all[i]
    &&& all.last().len() > 0
}

pub proof fn lemma_lines_of_join(all: Seq<Seq<char>>)
    requires
        joinable(all),
    ensures
        lines(join(all, seq!['\n'])) == all,
    decreases all.len(),
{
    let s = join(all, seq!['\n']);
    if all.len() == 1 {
        assert(lacks(all[0], '\n'));
        lemma_first_index_at(s, '\n', s.len() as int);
        assert(lines(s) =~= all);
    } else {
        let rest = all.drop_first();
        assert forall|i: int| 0 <= i < rest.len() implies lacks(#[trigger] rest[i], '\n') by {
            assert(rest[i] == all[i + 1]);
        }
        assert forall|i: int| 0 <= i < rest.len() - 1 implies strip_return(#[trigger] rest[i])
            == rest[i] by {
            assert(rest[i] == all[i + 1]);
        }
        lemma_lines_of_join(rest);
        lemma_join_front(all, seq!['\n']);
        assert(lacks(all[0], '\n') && strip_return(all[0]) == all[0]);
        lemma_lines_of_one(all[0]);
        assert(s =~= all[0].push('\n') + join(rest, seq!['\n']));
        lemma_lines_concat(all[0].push('\n'), join(rest, seq!['\n']));
        assert(lines(s) =~= all);
    }
}

proof fn lemma_lines_lack_breaks(s: Seq<char>)
    ensures
        forall|i: int| 0 <= i < lines(s).len() ==> lacks(#[trigger] lines(s)[i], '\n'),
    decreases s.len(),
{
    let end = first_index(s, '\n') as int;
    lemma_first_index(s, '\n');
    if s.len() > 0 && end < s.len() {
        let rest = lines(s.skip(end + 1));
        lemma_lines_lack_breaks(s.skip(end + 1));
        assert(lacks(strip_return(s.take(end)), '\n'));
        assert forall|i: int| 0 <= i < lines(s).len() implies lacks(
            #[trigger] lines(s)[i],
            '\n',
        ) by {
            if i > 0 {
                assert(lines(s)[i] == rest[i - 1]);
            }
        }
    }
}

proof fn lemma_trim_start_lacks(s: Seq<char>, c: char)
    requires
        lacks(s, c),
    ensures
        lacks(trim_start(s), c),
    decreases s.len(),
{
    if s.len() > 0 && white_space(s[0]) {
        lemma_trim_start_lacks(s.drop_first(), c);
    }
}

proof fn lemma_trim_end_lacks(s: Seq<char>, c: char)
    requires
        lacks(s, c),
    ensures
        lacks(trim_end(s), c),
    decreases s.len(),
{
    if s.len() > 0 && white_space(s.last()) {
        lemma_trim_end_lacks(s.drop_last(), c);
    }
}

proof fn lemma_escaped_lacks(value: Seq<char>, c: char)
    requires
        lacks(value, c),
        c != '\\',
    ensures
        lacks(escaped(value), c),
    decreases value.len(),
{
    if value.len() > 0 {
        assert(value[value.len() - 1] != c);
        lemma_escaped_lacks(value.drop_last(), c);
    }
}

/// The form of a line whose value was quoted.
proof fn lemma_quoted_line(line: Seq<char>, top: Option<int>)
    requires
        normalized_line(line, top) != line,
    ensures
        first_index(line, ':') < line.len(),
        line[first_index(line, ':') as int] == ':',
        first_index(normalized_line(line, top), ':') == first_index(line, ':'),
        normalized_line(line, top) == line.take(first_index(line, ':') as int) + seq![
            ':',
            ' ',
            '"',
        ] + escaped(trim(line.skip(first_index(line, ':') as int + 1))) + seq!['"'],
{
    let colon = first_index(line, ':') as int;
    let out = normalized_line(line, top);
    lemma_first_index(line, ':');
    assert forall|i: int| 0 <= i < colon implies out[i] != ':' by {
        assert(out[i] == line[i]);
    }
    assert(out[colon] == ':');
    lemma_first_index_at(out, ':', colon);
}

/// A line that was quoted keeps its key, and reading it gives back its value.
pub proof fn law_quoted_line_keeps_value(line: Seq<char>, top: Option<int>)
    requires
        normalized_line(line, top) != line,
    ensures
        ({
            let colon = first_index(line, ':') as int;
            let out = normalized_line(line, top);
            &&& out.take(colon) == line.take(colon)
            &&& out.subrange(colon, colon + 3) == seq![':', ' ', '"']
            &&& read_quoted(out.skip(colon + 3)) == Some(trim(line.skip(colon + 1)))
        }),
{
    let colon = first_index(line, ':') as int;
    let value = trim(line.skip(colon + 1));
    let out = normalized_line(line, top);
    lemma_quoted_line(line, top);
    law_quoted_value_is_read_back(value);
    assert(out.take(colon) =~= line.take(colon));
    assert(out.subrange(colon, colon + 3) =~= seq![':', ' ', '"']);
    assert(out.skip(colon + 3) =~= escaped(value).push('"'));
}

pub proof fn lemma_top_indent_extends(all: Seq<Seq<char>>, m: int, n: int)
    requires
        0 <= m <= n <= all.len(),
        top_indent(all.take(m)) is Some,
    ensures
        top_indent(all.take(n)) == top_indent(all.take(m)),
    decreases n,
{
    if m < n {
        lemma_top_indent_extends(all, m, n - 1);
        assert(all.take(n).drop_last() =~= all.take(n - 1));
    }
}

/// Whether a line begins a block scalar.
pub open spec fn opens_block(line: Seq<char>) -> bool {
    let value = trim_start(line.skip(first_index(line, ':') as int + 1));
    first_index(line, ':') < line.len() && value.len() > 0 && value[0] == '|'
}

/// Whether the lines from `at` to before `end` are a block scalar: the first begins it, and the
/// others are indented deeper or blank. What begins it is no comment, and is indented no less
/// than the top-level keys.
pub open spec fn is_block(all: Seq<Seq<char>>, at: int, end: int) -> bool {
    &&& 0 <= at < end <= all.len()
    &&& opens_block(all[at])
    &&& has_content(all[at])
    &&& top_indent(all.take(at)) matches Some(top) ==> indent(all[at]) >= top
    &&& forall|i: int|
        at < i < end ==> indent(#[trigger] all[i]) > indent(all[at]) || trim(all[i]).len() == 0
}

/// A block scalar is preserved: neither the line that begins it nor the lines of its body are
/// changed, whatever they hold.
pub proof fn law_block_scalar_is_preserved(all: Seq<Seq<char>>, at: int, end: int, i: int)
    requires
        is_block(all, at, end),
        at <= i < end,
    ensures
        normalized_lines(all)[i] == all[i],
{
    let top = top_indent(all.take(i));
    if i == at {
        assert(kept_line(all[i], top));
    } else {
        assert(all.take(at + 1).drop_last() =~= all.take(at));
        assert(all.take(at + 1).last() == all[at]);
        lemma_top_indent_extends(all, at + 1, i);
        assert(kept_line(all[i], top));
    }
}

/// Lines that are indented deeper than the first key are not changed, whatever they hold.
pub proof fn law_nested_lines_are_kept(all: Seq<Seq<char>>, first: int, i: int)
    requires
        0 <= first < i < all.len(),
        has_content(all[first]),
        forall|j: int| 0 <= j < first ==> !has_content(#[trigger] all[j]),
        indent(all[i]) > indent(all[first]),
    ensures
        normalized_lines(all)[i] == all[i],
{
    lemma_top_indent_at(all, first);
    lemma_top_indent_extends(all, first + 1, i);
    assert(kept_line(all[i], top_indent(all.take(i))));
}

/// The first line with content tells the indent of the top-level keys.
pub proof fn lemma_top_indent_at(all: Seq<Seq<char>>, first: int)
    requires
        0 <= first < all.len(),
        has_content(all[first]),
        forall|j: int| 0 <= j < first ==> !has_content(#[trigger] all[j]),
    ensures
        top_indent(all.take(first + 1)) == Some(indent(all[first])),
{
    lemma_top_indent_none(all, first);
    assert(all.take(first + 1).drop_last() =~= all.take(first));
    assert(all.take(first + 1).last() == all[first]);
}

proof fn lemma_top_indent_none(all: Seq<Seq<char>>, n: int)
    requires
        0 <= n <= all.len(),
        forall|j: int| 0 <= j < n ==> !has_content(#[trigger] all[j]),
    ensures
        top_indent(all.take(n)) is None,
    decreases n,
{
    if n > 0 {
        lemma_top_indent_none(all, n - 1);
        assert(all.take(n).drop_last() =~= all.take(n - 1));
        assert(!has_content(all[n - 1]));
    }
}

/// Whether a text is white space alone.
pub open spec fn is_blank(s: Seq<char>) -> bool {
    forall|i: int| 0 <= i < s.len() ==> white_space(#[trigger] s[i])
}

/// The lines with `pad` in front of each.
pub open spec fn padded(pad: Seq<char>, all: Seq<Seq<char>>) -> Seq<Seq<char>> {
    Seq::new(all.len(), |i: int| pad + all[i])
}

/// The indent that lines have with `pad` in front of each.
spec fn padded_indent(pad: Seq<char>, top: Option<int>) -> Option<int> {
    match top {
        Some(top) => Some(pad.len() + top),
        None => None,
    }
}

pub proof fn lemma_trim_start_padded(pad: Seq<char>, s: Seq<char>)
    requires
        is_blank(pad),
    ensures
        trim_start(pad + s) == trim_start(s),
    decreases pad.len(),
{
    if pad.len() == 0 {
        assert(pad + s =~= s);
    } else {
        assert((pad + s)[0] == pad[0]);
        assert((pad + s).drop_first() =~= pad.drop_first() + s);
        lemma_trim_start_padded(pad.drop_first(), s);
    }
}

proof fn lemma_top_indent_padded(pad: Seq<char>, all: Seq<Seq<char>>, n: int)
    requires
        is_blank(pad),
        0 <= n <= all.len(),
    ensures
        top_indent(padded(pad, all).take(n)) == padded_indent(pad, top_indent(all.take(n))),
    decreases n,
{
    if n > 0 {
        lemma_top_indent_padded(pad, all, n - 1);
        lemma_trim_start_padded(pad, all[n - 1]);
        assert(all.take(n).drop_last() =~= all.take(n - 1));
        assert(padded(pad, all).take(n).drop_last() =~= padded(pad, all).take(n - 1));
    }
}

proof fn lemma_normalized_line_padded(pad: Seq<char>, line: Seq<char>, top: Option<int>)
    requires
        is_blank(pad),
    ensures
        normalized_line(pad + line, padded_indent(pad, top)) == pad + normalized_line(line, top),
{
    let colon = first_index(line, ':') as int;
    let out = pad + line;
    lemma_trim_start_padded(pad, line);
    lemma_first_index(line, ':');
    lemma_first_index(out, ':');
    assert forall|i: int| 0 <= i < pad.len() + colon implies out[i] != ':' by {
        if i < pad.len() {
            assert(white_space(pad[i]));
        } else {
            assert(out[i] == line[i - pad.len()]);
        }
    }
    if colon < line.len() {
        assert(out[pad.len() + colon] == line[colon]);
        lemma_first_index_at(out, ':', pad.len() + colon);
        assert(out.take(pad.len() + colon) =~= pad + line.take(colon));
        assert(out.skip(pad.len() + colon + 1) =~= line.skip(colon + 1));
        lemma_trim_start_padded(pad, line.take(colon));
    }
    assert(kept_line(out, padded_indent(pad, top)) == kept_line(line, top));
    assert(normalized_line(out, padded_indent(pad, top)) =~= pad + normalized_line(line, top));
}

/// How far the frontmatter is indented as a whole makes no difference to the lines that are
/// quoted.
pub proof fn law_indent_of_all_lines_makes_no_difference(pad: Seq<char>, all: Seq<Seq<char>>)
    requires
        is_blank(pad),
    ensures
        normalized_lines(padded(pad, all)) == padded(pad, normalized_lines(all)),
{
    let out = padded(pad, all);
    assert forall|i: int| 0 <= i < all.len() implies normalized_lines(out)[i] == padded(
        pad,
        normalized_lines(all),
    )[i] by {
        lemma_top_indent_padded(pad, all, i);
        lemma_normalized_line_padded(pad, all[i], top_indent(all.take(i)));
    }
    assert(normalized_lines(out) =~= padded(pad, normalized_lines(all)));
}

/// A normalized line stays as it is when it is normalized again.
pub proof fn law_normalized_line_is_stable(line: Seq<char>, top: Option<int>)
    ensures
        normalized_line(normalized_line(line, top), top) == normalized_line(line, top),
{
    let out = normalized_line(line, top);
    if out != line {
        lemma_quoted_line(line, top);
        let colon = first_index(line, ':') as int;
        let after = out.skip(colon + 1);
        let inner = after.drop_first();
        assert(after[0] == ' ');
        assert(inner[0] == '"');
        assert(trim_start(inner) == inner);
        assert(trim_start(after) == inner);
        assert(kept_line(out, top));
    }
}

proof fn lemma_trim_start_concat(a: Seq<char>, b: Seq<char>)
    requires
        b.len() > 0,
        !white_space(b[0]),
    ensures
        trim_start(a + b) == trim_start(a) + b,
    decreases a.len(),
{
    if a.len() == 0 {
        assert(a + b =~= b);
        assert(trim_start(a) + b =~= b);
    } else if white_space(a[0]) {
        lemma_trim_start_concat(a.drop_first(), b);
        assert((a + b).drop_first() =~= a.drop_first() + b);
    }
}

/// Normalizing a line changes neither its indent nor whether it has content.
proof fn lemma_normalized_line_keeps_indent(line: Seq<char>, top: Option<int>)
    ensures
        indent(normalized_line(line, top)) == indent(line),
        has_content(normalized_line(line, top)) == has_content(line),
{
    let out = normalized_line(line, top);
    if out != line {
        lemma_quoted_line(line, top);
        let colon = first_index(line, ':') as int;
        let key = line.take(colon);
        assert(line =~= key + line.skip(colon));
        assert(out =~= key + out.skip(colon));
        lemma_trim_start_concat(key, line.skip(colon));
        lemma_trim_start_concat(key, out.skip(colon));
    }
}

/// Normalizing lines does not change the indent of the top-level keys.
proof fn lemma_normalized_lines_keep_top(all: Seq<Seq<char>>, n: int)
    requires
        0 <= n <= all.len(),
    ensures
        top_indent(normalized_lines(all).take(n)) == top_indent(all.take(n)),
    decreases n,
{
    if n > 0 {
        let out = normalized_lines(all);
        lemma_normalized_lines_keep_top(all, n - 1);
        lemma_normalized_line_keeps_indent(all[n - 1], top_indent(all.take(n - 1)));
        assert(all.take(n).drop_last() =~= all.take(n - 1));
        assert(out.take(n).drop_last() =~= out.take(n - 1));
    } else {
        assert(normalized_lines(all).take(n) =~= all.take(n));
    }
}

proof fn lemma_normalized_line_lacks_breaks(line: Seq<char>, top: Option<int>)
    requires
        lacks(line, '\n'),
    ensures
        lacks(normalized_line(line, top), '\n'),
        line.len() > 0 ==> normalized_line(line, top).len() > 0,
{
    if normalized_line(line, top) != line {
        lemma_quoted_line(line, top);
        let after = line.skip(first_index(line, ':') as int + 1);
        assert(lacks(after, '\n'));
        lemma_trim_start_lacks(after, '\n');
        lemma_trim_end_lacks(trim_start(after), '\n');
        lemma_escaped_lacks(trim(after), '\n');
    }
}

/// A normalized frontmatter stays as it is when it is normalized again. The exceptions are
/// texts that splitting into lines and joining shortens: one that ends in a blank line after
/// others, and one with a carriage return before a line break that is still there after
/// normalization.
pub proof fn law_normalized_is_stable(yaml: Seq<char>)
    requires
        lines(yaml).len() > 1 ==> lines(yaml).last().len() > 0,
        forall|i: int|
            0 <= i < lines(yaml).len() - 1 ==> strip_return(
                #[trigger] normalized_lines(lines(yaml))[i],
            ) == normalized_lines(lines(yaml))[i],
    ensures
        normalized(normalized(yaml)) == normalized(yaml),
{
    let old_lines = lines(yaml);
    let new_lines = normalized_lines(old_lines);
    let out = normalized(yaml);
    lemma_lines_lack_breaks(yaml);
    assert forall|i: int| 0 <= i < new_lines.len() implies lacks(#[trigger] new_lines[i], '\n') by {
        lemma_normalized_line_lacks_breaks(old_lines[i], top_indent(old_lines.take(i)));
    }
    if new_lines.len() > 0 && new_lines.last().len() > 0 {
        lemma_lines_of_join(new_lines);
        let again = normalized_lines(new_lines);
        assert forall|i: int| 0 <= i < again.len() implies again[i] == new_lines[i] by {
            lemma_normalized_lines_keep_top(old_lines, i);
            law_normalized_line_is_stable(old_lines[i], top_indent(old_lines.take(i)));
        }
        assert(again =~= new_lines);
    } else {
        if new_lines.len() > 1 {
            let last = old_lines.len() - 1;
            lemma_normalized_line_lacks_breaks(
                old_lines[last],
                top_indent(old_lines.take(last)),
            );
        }
        assert(out =~= seq![]);
        assert(normalized(out) =~= seq![]);
    }
}

// Finding the frontmatter.

proof fn lemma_first_delimiter_at(all: Seq<Seq<char>>, at: int)
    requires
        0 <= at <= all.len(),
        forall|i: int| 0 <= i < at ==> !is_delimiter(#[trigger] all[i]),
        at < all.len() ==> is_delimiter(all[at]),
    ensures
        first_delimiter(all) == at,
    decreases all.len(),
{
    if at > 0 {
        assert(!is_delimiter(all[0]));
        let rest = all.drop_first();
        assert forall|i: int| 0 <= i < at - 1 implies !is_delimiter(#[trigger] rest[i]) by {
            assert(rest[i] == all[i + 1]);
        }
        lemma_first_delimiter_at(rest, at - 1);
    }
}

proof fn lemma_first_delimiter(all: Seq<Seq<char>>)
    ensures
        first_delimiter(all) <= all.len(),
        forall|i: int| 0 <= i < first_delimiter(all) ==> !is_delimiter(#[trigger] all[i]),
        first_delimiter(all) < all.len() ==> is_delimiter(all[first_delimiter(all) as int]),
    decreases all.len(),
{
    if all.len() > 0 && !is_delimiter(all[0]) {
        lemma_first_delimiter(all.drop_first());
        assert forall|i: int| 0 <= i < first_delimiter(all) implies !is_delimiter(
            #[trigger] all[i],
        ) by {
            if i > 0 {
                assert(all[i] == all.drop_first()[i - 1]);
            }
        }
    }
}

/// Whether a file with the lines `all` begins with a frontmatter that has the lines `body`.
pub open spec fn framed(all: Seq<Seq<char>>, body: Seq<Seq<char>>) -> bool {
    &&& body.len() > 0
    &&& all.len() >= body.len() + 2
    &&& is_delimiter(all[0])
    &&& all.subrange(1, body.len() as int + 1) == body
    &&& is_delimiter(all[body.len() as int + 1])
    &&& forall|i: int| 0 <= i < body.len() ==> !is_delimiter(#[trigger] body[i])
}

/// A file has a frontmatter exactly if it begins with one, between two delimiters and not
/// empty; what is found is then the lines between them.
pub proof fn law_frontmatter_is_what_is_framed(contents: Seq<char>)
    ensures
        forall|body: Seq<Seq<char>>| #[trigger]
            framed(lines(contents), body) ==> frontmatter(contents) == Some(
                join(body, seq!['\n']),
            ),
        frontmatter(contents) is Some ==> exists|body: Seq<Seq<char>>| #[trigger]
            framed(lines(contents), body),
{
    let all = lines(contents);
    let after = all.drop_first();
    assert forall|body: Seq<Seq<char>>| #[trigger] framed(all, body) implies frontmatter(contents)
        == Some(join(body, seq!['\n'])) by {
        let n = body.len() as int;
        assert forall|i: int| 0 <= i < n implies !is_delimiter(#[trigger] after[i]) by {
            assert(after[i] == all.subrange(1, n + 1)[i]);
            assert(!is_delimiter(body[i]));
        }
        lemma_first_delimiter_at(after, n);
        assert(after.take(n) =~= body);
    }
    if frontmatter(contents) is Some {
        lemma_first_delimiter(after);
        let body = after.take(first_delimiter(after) as int);
        assert(all.subrange(1, body.len() as int + 1) =~= body);
        assert forall|i: int| 0 <= i < body.len() implies !is_delimiter(#[trigger] body[i]) by {
            assert(body[i] == after[i]);
        }
        assert(framed(all, body));
    }
}

/// Whether the character at `i` is a carriage return at the end of a line.
pub open spec fn line_ends_in_return(s: Seq<char>, i: int) -> bool {
    0 <= i < s.len() && s[i] == '\r' && (i + 1 == s.len() || s[i + 1] == '\n')
}

proof fn lemma_join_of_lines(yaml: Seq<char>)
    requires
        forall|i: int| !(#[trigger] line_ends_in_return(yaml, i)),
    ensures
        lines(yaml.push('\n')).len() > 0,
        join(lines(yaml.push('\n')), seq!['\n']) == yaml,
    decreases yaml.len(),
{
    let s = yaml.push('\n');
    let end = first_index(s, '\n') as int;
    lemma_first_index(s, '\n');
    assert(s[yaml.len() as int] == '\n');
    assert(end <= yaml.len());
    let line = s.take(end);
    let tail = yaml.skip(end + 1);
    assert(strip_return(line) == line) by {
        if line.len() > 0 && line.last() == '\r' {
            assert(line_ends_in_return(yaml, end - 1));
        }
    }
    if end == yaml.len() {
        assert(lines(s.skip(end + 1)) =~= seq![]);
        assert(line =~= yaml);
        assert(lines(s) =~= seq![yaml]);
    } else {
        assert(s.skip(end + 1) =~= tail.push('\n'));
        assert forall|i: int| !(#[trigger] line_ends_in_return(tail, i)) by {
            assert(!line_ends_in_return(yaml, i + end + 1));
        }
        lemma_join_of_lines(tail);
        let rest = lines(tail.push('\n'));
        assert(lines(s) =~= seq![line] + rest);
        assert(lines(s).drop_first() =~= rest);
        lemma_join_front(lines(s), seq!['\n']);
        assert(line + seq!['\n'] + tail =~= yaml);
    }
}

/// A frontmatter that is written between two lines of `---` is found as it was written, unless
/// one of its own lines is a delimiter. The exceptions are texts with a carriage return at the
/// end of a line, which belongs to the line break.
pub proof fn law_written_frontmatter_is_found(yaml: Seq<char>, rest: Seq<char>)
    requires
        forall|i: int| !(#[trigger] line_ends_in_return(yaml, i)),
        forall|i: int|
            0 <= i < lines(yaml.push('\n')).len() ==> !is_delimiter(
                #[trigger] lines(yaml.push('\n'))[i],
            ),
    ensures
        frontmatter("---\n"@ + yaml + "\n---\n"@ + rest) == Some(yaml),
{
    reveal_strlit("---");
    reveal_strlit("---\n");
    reveal_strlit("\n---\n");
    let contents = "---\n"@ + yaml + "\n---\n"@ + rest;
    let dashes = "---"@;
    let open = "---\n"@;
    let body = lines(yaml.push('\n'));
    let end = dashes.push('\n') + rest;
    assert(open =~= dashes.push('\n'));
    assert(dashes.len() == 3 && dashes[0] == '-' && dashes[1] == '-' && dashes[2] == '-');
    assert(trim_start(dashes) == dashes);
    assert(trim_end(dashes) == dashes);
    assert(is_delimiter(dashes));
    assert(lacks(dashes, '\n'));
    assert(strip_return(dashes) == dashes);
    lemma_lines_of_one(dashes);
    assert(contents =~= dashes.push('\n') + (yaml.push('\n') + end));
    lemma_lines_concat(dashes.push('\n'), yaml.push('\n') + end);
    lemma_lines_concat(yaml.push('\n'), end);
    lemma_lines_concat(dashes.push('\n'), rest);
    lemma_join_of_lines(yaml);
    let all = lines(contents);
    assert(all =~= seq![dashes] + body + seq![dashes] + lines(rest));
    assert(all.subrange(1, body.len() as int + 1) =~= body);
    assert(framed(all, body));
    law_frontmatter_is_what_is_framed(contents);
}

} // verus!
