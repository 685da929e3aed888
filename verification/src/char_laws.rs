//! What holds of the texts of skill files, told on their characters: white space, words, lines,
//! values that are quoted, delimiters and numbers.
use vstd::prelude::*;

verus! {

use crate::frontmatter::{decimal, quoting_needed, single_line, special};
use crate::text::{
    join, lemma_first_index_at, lemma_join_push, lemma_word_len, lemma_word_len_at, lines,
    strip_return, trim, trim_end, trim_start, white_space, word_len, words,
};
use crate::text_laws::{
    is_blank, lacks, lemma_join_front, lemma_lines_concat, lemma_lines_of_one,
    lemma_trim_start_padded,
};

// White space at the ends.

/// Whether no white space stands at the front of `s`.
pub open spec fn starts_solid(s: Seq<char>) -> bool {
    s.len() > 0 ==> !white_space(s[0])
}

/// Whether no white space stands at the end of `s`.
pub open spec fn ends_solid(s: Seq<char>) -> bool {
    s.len() > 0 ==> !white_space(s.last())
}

/// What is taken away in front is the white space there, and nothing else.
pub proof fn law_front_is_trimmed(front: Seq<char>, s: Seq<char>)
    requires
        is_blank(front),
        starts_solid(s),
    ensures
        trim_start(front + s) == s,
{
    lemma_trim_start_padded(front, s);
}

proof fn lemma_trim_end_padded(s: Seq<char>, back: Seq<char>)
    requires
        is_blank(back),
        ends_solid(s),
    ensures
        trim_end(s + back) == s,
    decreases back.len(),
{
    if back.len() == 0 {
        assert(s + back =~= s);
    } else {
        assert(white_space(back[back.len() - 1]));
        assert((s + back).last() == back.last());
        assert((s + back).drop_last() =~= s + back.drop_last());
        lemma_trim_end_padded(s, back.drop_last());
    }
}

/// What is taken away at both ends is the white space there, and nothing else.
pub proof fn law_both_ends_are_trimmed(front: Seq<char>, s: Seq<char>, back: Seq<char>)
    requires
        is_blank(front),
        is_blank(back),
        starts_solid(s),
        ends_solid(s),
    ensures
        trim(front + s + back) == s,
{
    assert(front + s + back =~= front + (s + back));
    lemma_trim_start_padded(front, s + back);
    if s.len() == 0 {
        assert(s + back =~= back);
        lemma_trim_start_padded(back, seq![]);
        assert(back + seq![] =~= back);
        assert(trim_start(back) =~= s);
    } else {
        assert(trim_start(s + back) == s + back);
        lemma_trim_end_padded(s, back);
    }
}

// Words.

/// White space, whatever it is, parts the words before it from those behind it.
pub proof fn law_white_space_parts_words(a: Seq<char>, c: char, b: Seq<char>)
    requires
        white_space(c),
    ensures
        words(a.push(c) + b) == words(a) + words(b),
    decreases a.len(),
{
    let s = a.push(c) + b;
    if a.len() == 0 {
        assert(s[0] == c);
        assert(s.drop_first() =~= b);
        assert(words(a) + words(b) =~= words(b));
    } else if white_space(a[0]) {
        assert(s[0] == a[0]);
        assert(s.drop_first() =~= a.drop_first().push(c) + b);
        law_white_space_parts_words(a.drop_first(), c, b);
    } else {
        let n = word_len(a) as int;
        lemma_word_len(a);
        assert(n > 0);
        assert forall|i: int| 0 <= i < n implies !white_space(s[i]) by {
            assert(s[i] == a[i]);
        }
        assert(white_space(s[n]));
        lemma_word_len_at(s, n);
        assert(s.take(n) =~= a.take(n));
        assert(s.skip(n) =~= a.skip(n).push(c) + b);
        law_white_space_parts_words(a.skip(n), c, b);
        if n == a.len() {
            assert(a.take(n) =~= a);
            assert(words(a.skip(n)) =~= seq![]);
        }
        assert(words(a) =~= seq![a.take(n)] + words(a.skip(n)));
        assert(words(s) =~= words(a) + words(b));
    }
}

/// A text without white space is one word.
pub proof fn law_word_stays_whole(w: Seq<char>)
    requires
        w.len() > 0,
        forall|i: int| 0 <= i < w.len() ==> !white_space(#[trigger] w[i]),
    ensures
        words(w) == seq![w],
        single_line(w) == w,
{
    lemma_word_len_at(w, w.len() as int);
    assert(words(w) =~= seq![w]);
}

/// A text that is white space alone has no words.
pub proof fn law_blank_text_has_no_words(s: Seq<char>)
    requires
        is_blank(s),
    ensures
        words(s).len() == 0,
        single_line(s).len() == 0,
    decreases s.len(),
{
    if s.len() > 0 {
        law_blank_text_has_no_words(s.drop_first());
    }
}

/// On a single line, what stands on either side of white space is parted by one space, unless
/// there is nothing on one side.
pub proof fn law_white_space_becomes_one_space(a: Seq<char>, c: char, b: Seq<char>)
    requires
        white_space(c),
    ensures
        words(a).len() == 0 ==> single_line(a.push(c) + b) == single_line(b),
        words(b).len() == 0 ==> single_line(a.push(c) + b) == single_line(a),
        words(a).len() > 0 && words(b).len() > 0 ==> single_line(a.push(c) + b) == single_line(
            a,
        ).push(' ') + single_line(b),
{
    law_white_space_parts_words(a, c, b);
    if words(a).len() == 0 {
        assert(words(a) + words(b) =~= words(b));
    }
    if words(b).len() == 0 {
        assert(words(a) + words(b) =~= words(a));
    }
    if words(a).len() > 0 && words(b).len() > 0 {
        law_join_of_both(words(a), words(b), seq![' ']);
        assert(single_line(a.push(c) + b) =~= single_line(a).push(' ') + single_line(b));
    }
}

/// Whether a character is no white space.
pub open spec fn is_solid() -> spec_fn(char) -> bool {
    |c: char| !white_space(c)
}

proof fn lemma_solid_filter(s: Seq<char>)
    requires
        forall|i: int| 0 <= i < s.len() ==> !white_space(#[trigger] s[i]),
    ensures
        s.filter(is_solid()) == s,
    decreases s.len(),
{
    reveal(Seq::filter);
    if s.len() > 0 {
        let front = s.drop_last();
        assert forall|i: int| 0 <= i < front.len() implies !white_space(#[trigger] front[i]) by {
            assert(front[i] == s[i]);
        }
        lemma_solid_filter(front);
        assert(s.last() == s[s.len() - 1]);
        assert(s =~= front.push(s.last()));
    }
}

proof fn lemma_word_in_front(w: Seq<char>, rest: Seq<char>)
    requires
        forall|i: int| 0 <= i < w.len() ==> !white_space(#[trigger] w[i]),
    ensures
        (w + rest).filter(is_solid()) == w + rest.filter(is_solid()),
{
    lemma_solid_filter(w);
    Seq::filter_distributes_over_add(w, rest, is_solid());
}

proof fn lemma_space_in_front(c: char, rest: Seq<char>)
    requires
        white_space(c),
    ensures
        (seq![c] + rest).filter(is_solid()) == rest.filter(is_solid()),
{
    let one = seq![c];
    Seq::filter_distributes_over_add(one, rest, is_solid());
    assert(one.filter(is_solid()) =~= Seq::<char>::empty()) by {
        reveal(Seq::filter);
        assert(one.drop_last() =~= Seq::<char>::empty());
        assert(one.drop_last().filter(is_solid()) =~= Seq::<char>::empty());
    }
    assert(Seq::<char>::empty() + rest.filter(is_solid()) =~= rest.filter(is_solid()));
}

/// Putting a text on a single line loses no character but white space, and adds none, from the
/// first to the last.
pub proof fn law_single_line_keeps_characters(raw: Seq<char>)
    ensures
        single_line(raw).filter(is_solid()) == raw.filter(is_solid()),
    decreases raw.len(),
{
    if raw.len() == 0 {
        assert(single_line(raw) =~= raw);
    } else if white_space(raw[0]) {
        let rest = raw.drop_first();
        law_single_line_keeps_characters(rest);
        assert(raw =~= seq![raw[0]] + rest);
        lemma_space_in_front(raw[0], rest);
    } else {
        let n = word_len(raw) as int;
        lemma_word_len(raw);
        let w = raw.take(n);
        let rest = raw.skip(n);
        assert(raw =~= w + rest);
        lemma_word_in_front(w, rest);
        if n == raw.len() {
            assert(words(raw) =~= seq![raw]);
            assert(single_line(raw) == raw);
        } else {
            law_single_line_keeps_characters(rest);
            lemma_single_line_in_front(w, rest, raw);
        }
    }
}

/// The case of a word and what follows it.
proof fn lemma_single_line_in_front(w: Seq<char>, rest: Seq<char>, raw: Seq<char>)
    requires
        words(raw) == seq![w] + words(rest),
        forall|i: int| 0 <= i < w.len() ==> !white_space(#[trigger] w[i]),
    ensures
        single_line(raw).filter(is_solid()) == w + single_line(rest).filter(is_solid()),
{
    if words(rest).len() == 0 {
        let nothing = Seq::<char>::empty();
        assert(words(raw) =~= seq![w]);
        assert(single_line(rest) =~= nothing);
        lemma_word_in_front(w, nothing);
        assert(w + nothing =~= w);
    } else {
        let spaced = seq![' '] + single_line(rest);
        lemma_join_front(words(raw), seq![' ']);
        assert(words(raw).drop_first() =~= words(rest));
        assert(single_line(raw) =~= w + spaced);
        lemma_word_in_front(w, spaced);
        lemma_space_in_front(' ', single_line(rest));
    }
}

// Joining.

/// Two lists that are joined one after the other have the separator between them once.
pub proof fn law_join_of_both(a: Seq<Seq<char>>, b: Seq<Seq<char>>, sep: Seq<char>)
    requires
        a.len() > 0,
        b.len() > 0,
    ensures
        join(a + b, sep) == join(a, sep) + sep + join(b, sep),
    decreases b.len(),
{
    let front = b.drop_last();
    let last = b.last();
    assert(a + b =~= (a + front).push(last));
    lemma_join_push(a + front, last, sep);
    if front.len() == 0 {
        assert(a + front =~= a);
        assert(b =~= seq![last]);
        assert(join(b, sep) == last);
    } else {
        law_join_of_both(a, front, sep);
        assert(b =~= front.push(last));
        lemma_join_push(front, last, sep);
        assert(join(a + b, sep) =~= join(a, sep) + sep + join(b, sep));
    }
}

/// One part alone is joined to itself, and no parts to nothing.
pub proof fn law_join_of_one(part: Seq<char>, sep: Seq<char>)
    ensures
        join(seq![part], sep) == part,
        join(seq![], sep).len() == 0,
{
}

// Lines.

/// A line feed ends a line.
pub proof fn law_line_feed_ends_line(line: Seq<char>, rest: Seq<char>)
    requires
        lacks(line, '\n'),
        line.len() > 0 ==> line.last() != '\r',
    ensures
        lines(line.push('\n') + rest) == seq![line] + lines(rest),
{
    lemma_lines_of_one(line);
    lemma_lines_concat(line.push('\n'), rest);
}

/// A carriage return and a line feed together end a line too.
pub proof fn law_return_and_line_feed_end_line(line: Seq<char>, rest: Seq<char>)
    requires
        lacks(line, '\n'),
    ensures
        lines(line.push('\r').push('\n') + rest) == seq![line] + lines(rest),
{
    let s = line.push('\r');
    assert(s.drop_last() =~= line);
    assert(strip_return(s) == line);
    lemma_lines_of_one(s);
    lemma_lines_concat(s.push('\n'), rest);
}

/// The last line may lack its ending; nothing has no lines.
pub proof fn law_last_line_needs_no_ending(line: Seq<char>)
    requires
        lacks(line, '\n'),
    ensures
        line.len() > 0 ==> lines(line) == seq![line],
        line.len() == 0 ==> lines(line).len() == 0,
{
    lemma_first_index_at(line, '\n', line.len() as int);
    if line.len() > 0 {
        assert(lines(line) =~= seq![line]);
    }
}

// Special characters.

/// A value needs quotes exactly if it holds one of seven characters, wherever that stands.
pub proof fn law_special_characters_need_quotes(value: Seq<char>)
    ensures
        quoting_needed(value) <==> {
            ||| value.contains(':')
            ||| value.contains('{')
            ||| value.contains('}')
            ||| value.contains('[')
            ||| value.contains(']')
            ||| value.contains(',')
            ||| value.contains('#')
        },
{
    if quoting_needed(value) {
        let i = choose|i: int| 0 <= i < value.len() && special(#[trigger] value[i]);
        assert(value.contains(value[i]));
    }
    assert forall|c: char| #[trigger] value.contains(c) && special(c) implies quoting_needed(
        value,
    ) by {
        let i = choose|i: int| 0 <= i < value.len() && value[i] == c;
        assert(special(value[i]));
    }
}

// Numbers.

/// The number that these decimal digits stand for.
pub open spec fn number_of(digits: Seq<char>) -> int
    decreases digits.len(),
{
    if digits.len() == 0 {
        0
    } else {
        10 * number_of(digits.drop_last()) + (digits.last() as int - '0' as int)
    }
}

/// A number is written in decimal digits that stand for it, without zeros in front.
pub proof fn law_number_is_read_back(n: nat)
    ensures
        number_of(decimal(n)) == n,
        decimal(n).len() > 0,
        forall|i: int| 0 <= i < decimal(n).len() ==> '0' <= #[trigger] decimal(n)[i] <= '9',
        n > 0 ==> decimal(n)[0] != '0',
    decreases n,
{
    let digits = decimal(n);
    if n < 10 {
        assert(digits.drop_last() =~= seq![]);
        assert(number_of(digits.drop_last()) == 0);
    } else {
        let front = decimal(n / 10);
        law_number_is_read_back(n / 10);
        assert(digits.drop_last() =~= front);
        assert(digits[0] == front[0]);
        assert forall|i: int| 0 <= i < digits.len() implies '0' <= #[trigger] digits[i] <= '9' by {
            if i < front.len() {
                assert(digits[i] == front[i]);
            }
        }
    }
}

} // verus!
