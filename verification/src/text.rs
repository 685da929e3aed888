//! Text as sequences of characters: white space, lines, words and joining.
//!
//! The executable functions work on slices of characters, so that every cut falls between
//! two characters. The specification functions say what each of them computes.
use vstd::prelude::*;

verus! {

/// `String::push` appends one character at the end.
pub assume_specification[ String::push ](s: &mut String, c: char)
    ensures
        final(s)@ == old(s)@.push(c),
;

/// Whether `c` has the Unicode property White_Space.
pub open spec fn white_space(c: char) -> bool {
    ||| '\u{9}' <= c <= '\u{d}'
    ||| c == ' '
    ||| c == '\u{85}'
    ||| c == '\u{a0}'
    ||| c == '\u{1680}'
    ||| '\u{2000}' <= c <= '\u{200a}'
    ||| c == '\u{2028}'
    ||| c == '\u{2029}'
    ||| c == '\u{202f}'
    ||| c == '\u{205f}'
    ||| c == '\u{3000}'
}

/// `char::is_whitespace` tells whether a character has the Unicode property White_Space.
pub assume_specification[ char::is_whitespace ](c: char) -> (b: bool)
    ensures
        b == white_space(c),
;

/// `s` without the white space in front.
pub open spec fn trim_start(s: Seq<char>) -> Seq<char>
    decreases s.len(),
{
    if s.len() > 0 && white_space(s[0]) {
        trim_start(s.drop_first())
    } else {
        s
    }
}

/// `s` without the white space behind.
pub open spec fn trim_end(s: Seq<char>) -> Seq<char>
    decreases s.len(),
{
    if s.len() > 0 && white_space(s.last()) {
        trim_end(s.drop_last())
    } else {
        s
    }
}

/// `s` without the white space in front and behind.
pub open spec fn trim(s: Seq<char>) -> Seq<char> {
    trim_end(trim_start(s))
}

/// The position of the first `c` in `s`, or the length of `s` if there is none.
pub open spec fn first_index(s: Seq<char>, c: char) -> nat
    decreases s.len(),
{
    if s.len() == 0 || s[0] == c {
        0
    } else {
        1 + first_index(s.drop_first(), c)
    }
}

/// Whether `s` begins with `prefix`.
pub open spec fn starts_with(s: Seq<char>, prefix: Seq<char>) -> bool {
    prefix.len() <= s.len() && s.take(prefix.len() as int) == prefix
}

/// `line` without one carriage return at its end.
pub open spec fn strip_return(line: Seq<char>) -> Seq<char> {
    if line.len() > 0 && line.last() == '\r' {
        line.drop_last()
    } else {
        line
    }
}

/// The lines of `s`. A line ends with a line feed, or with a carriage return and a line feed,
/// which are no part of it. The last line may lack its ending.
pub open spec fn lines(s: Seq<char>) -> Seq<Seq<char>>
    decreases s.len(),
{
    let end = first_index(s, '\n');
    if s.len() == 0 {
        seq![]
    } else if end >= s.len() {
        seq![s]
    } else {
        seq![strip_return(s.take(end as int))] + lines(s.skip((end + 1) as int))
    }
}

/// How many characters at the front of `s` are not white space.
pub open spec fn word_len(s: Seq<char>) -> nat
    decreases s.len(),
{
    if s.len() == 0 || white_space(s[0]) {
        0
    } else {
        1 + word_len(s.drop_first())
    }
}

/// The words of `s`: its longest stretches without white space, in order.
pub open spec fn words(s: Seq<char>) -> Seq<Seq<char>>
    decreases s.len(),
{
    if s.len() == 0 {
        seq![]
    } else if white_space(s[0]) {
        words(s.drop_first())
    } else {
        let n = word_len(s);
        if n >= s.len() {
            seq![s]
        } else {
            seq![s.take(n as int)] + words(s.skip(n as int))
        }
    }
}

/// The parts one after the other, with `sep` between each two.
pub open spec fn join(parts: Seq<Seq<char>>, sep: Seq<char>) -> Seq<char>
    decreases parts.len(),
{
    if parts.len() == 0 {
        seq![]
    } else if parts.len() == 1 {
        parts[0]
    } else {
        join(parts.drop_last(), sep) + sep + parts.last()
    }
}

/// What the slices of a list hold.
pub open spec fn texts(parts: Seq<&[char]>) -> Seq<Seq<char>> {
    Seq::new(parts.len(), |i: int| parts[i]@)
}

pub proof fn lemma_first_index(s: Seq<char>, c: char)
    ensures
        first_index(s, c) <= s.len(),
        first_index(s, c) < s.len() ==> s[first_index(s, c) as int] == c,
        forall|i: int| 0 <= i < first_index(s, c) ==> s[i] != c,
    decreases s.len(),
{
    if s.len() > 0 && s[0] != c {
        lemma_first_index(s.drop_first(), c);
        assert forall|i: int| 0 <= i < first_index(s, c) implies s[i] != c by {
            if i > 0 {
                assert(s[i] == s.drop_first()[i - 1]);
            }
        }
    }
}

/// A position that holds `c`, with no `c` before it, is the first one.
pub proof fn lemma_first_index_at(s: Seq<char>, c: char, at: int)
    requires
        0 <= at <= s.len(),
        forall|i: int| 0 <= i < at ==> s[i] != c,
        at < s.len() ==> s[at] == c,
    ensures
        first_index(s, c) == at,
    decreases s.len(),
{
    if at > 0 {
        assert(s[0] != c);
        let rest = s.drop_first();
        assert forall|i: int| 0 <= i < at - 1 implies rest[i] != c by {
            assert(rest[i] == s[i + 1]);
        }
        lemma_first_index_at(rest, c, at - 1);
    }
}

pub proof fn lemma_trim_start_len(s: Seq<char>)
    ensures
        trim_start(s).len() <= s.len(),
    decreases s.len(),
{
    if s.len() > 0 && white_space(s[0]) {
        lemma_trim_start_len(s.drop_first());
    }
}

pub proof fn lemma_word_len(s: Seq<char>)
    ensures
        word_len(s) <= s.len(),
        word_len(s) < s.len() ==> white_space(s[word_len(s) as int]),
        forall|i: int| 0 <= i < word_len(s) ==> !white_space(s[i]),
    decreases s.len(),
{
    if s.len() > 0 && !white_space(s[0]) {
        lemma_word_len(s.drop_first());
        assert forall|i: int| 0 <= i < word_len(s) implies !white_space(s[i]) by {
            if i > 0 {
                assert(s[i] == s.drop_first()[i - 1]);
            }
        }
    }
}

pub proof fn lemma_word_len_at(s: Seq<char>, at: int)
    requires
        0 <= at <= s.len(),
        forall|i: int| 0 <= i < at ==> !white_space(s[i]),
        at < s.len() ==> white_space(s[at]),
    ensures
        word_len(s) == at,
    decreases s.len(),
{
    if at > 0 {
        assert(!white_space(s[0]));
        let rest = s.drop_first();
        assert forall|i: int| 0 <= i < at - 1 implies !white_space(rest[i]) by {
            assert(rest[i] == s[i + 1]);
        }
        lemma_word_len_at(rest, at - 1);
    }
}

/// Joining one part more.
pub proof fn lemma_join_push(parts: Seq<Seq<char>>, part: Seq<char>, sep: Seq<char>)
    ensures
        join(parts.push(part), sep) == if parts.len() == 0 {
            part
        } else {
            join(parts, sep) + sep + part
        },
{
    assert(parts.push(part).drop_last() =~= parts);
}

/// The characters of `s`, in order.
pub(crate) fn chars_of(s: &str) -> (r: Vec<char>)
    ensures
        r@ == s@,
{
    let mut r: Vec<char> = Vec::new();
    for c in it: s.chars()
        invariant
            it.seq() == s@,
            r@ == it.seq().take(it.index() as int),
    {
        r.push(c);
    }
    r
}

/// The text made of the characters of `s`.
pub(crate) fn string_of(s: &[char]) -> (r: String)
    ensures
        r@ == s@,
{
    let mut r: String = String::new();
    for i in 0..s.len()
        invariant
            r@ == s@.take(i as int),
    {
        r.push(s[i]);
    }
    r
}

/// Whether two slices hold the same characters.
pub(crate) fn same_chars(a: &[char], b: &[char]) -> (r: bool)
    ensures
        r == (a@ == b@),
{
    if a.len() != b.len() {
        return false;
    }
    for i in 0..a.len()
        invariant
            a@.len() == b@.len(),
            forall|j: int| 0 <= j < i ==> a@[j] == b@[j],
    {
        if a[i] != b[i] {
            return false;
        }
    }
    assert(a@ =~= b@);
    true
}

/// Whether `s` begins with `prefix`.
pub(crate) fn begins_with(s: &[char], prefix: &[char]) -> (r: bool)
    ensures
        r == starts_with(s@, prefix@),
{
    prefix.len() <= s.len() && same_chars(&s[0..prefix.len()], prefix)
}

/// Adds the characters of `more` at the end of `to`.
pub(crate) fn append_chars(to: &mut Vec<char>, more: &[char])
    ensures
        final(to)@ == old(to)@ + more@,
{
    let ghost before = to@;
    for i in 0..more.len()
        invariant
            to@ == before + more@.take(i as int),
    {
        to.push(more[i]);
        assert(more@.take(i + 1) =~= more@.take(i as int).push(more@[i as int]));
    }
    assert(more@.take(more@.len() as int) =~= more@);
}

/// `s` without the white space in front.
pub(crate) fn trim_front(s: &[char]) -> (r: &[char])
    ensures
        r@ == trim_start(s@),
{
    let mut at: usize = 0;
    assert(s@.skip(0) =~= s@);
    while at < s.len() && s[at].is_whitespace()
        invariant
            at <= s@.len(),
            trim_start(s@) == trim_start(s@.skip(at as int)),
        decreases s@.len() - at,
    {
        assert(s@.skip(at as int).drop_first() =~= s@.skip(at + 1));
        at = at + 1;
    }
    assert(s@.skip(at as int) =~= s@.subrange(at as int, s@.len() as int));
    &s[at..s.len()]
}

/// `s` without the white space behind.
pub(crate) fn trim_back(s: &[char]) -> (r: &[char])
    ensures
        r@ == trim_end(s@),
{
    let mut end: usize = s.len();
    assert(s@.take(s@.len() as int) =~= s@);
    while end > 0 && s[end - 1].is_whitespace()
        invariant
            end <= s@.len(),
            trim_end(s@) == trim_end(s@.take(end as int)),
        decreases end,
    {
        assert(s@.take(end as int).drop_last() =~= s@.take(end - 1));
        end = end - 1;
    }
    assert(s@.take(end as int) =~= s@.subrange(0, end as int));
    &s[0..end]
}

/// `s` without the white space in front and behind.
pub(crate) fn trim_both(s: &[char]) -> (r: &[char])
    ensures
        r@ == trim(s@),
{
    trim_back(trim_front(s))
}

/// The position of the first `c` in `s`, or the length of `s` if there is none.
pub(crate) fn find_char(s: &[char], c: char) -> (r: usize)
    ensures
        r == first_index(s@, c),
        r <= s@.len(),
{
    let mut at: usize = 0;
    while at < s.len() && s[at] != c
        invariant
            at <= s@.len(),
            forall|i: int| 0 <= i < at ==> s@[i] != c,
        decreases s@.len() - at,
    {
        at = at + 1;
    }
    proof {
        lemma_first_index_at(s@, c, at as int);
    }
    at
}

/// The lines of `s`.
pub(crate) fn split_lines(s: &[char]) -> (r: Vec<&[char]>)
    ensures
        texts(r@) == lines(s@),
{
    let mut r: Vec<&[char]> = Vec::new();
    let mut rest: &[char] = s;
    assert(texts(r@) + lines(rest@) =~= lines(s@));
    while rest.len() > 0
        invariant
            texts(r@) + lines(rest@) == lines(s@),
        decreases rest@.len(),
    {
        let end: usize = find_char(rest, '\n');
        let ghost before = r@;
        let ghost whole = rest@;
        if end >= rest.len() {
            r.push(rest);
            rest = &rest[end..rest.len()];
            assert(texts(r@) =~= texts(before) + seq![whole]);
            assert(lines(rest@) =~= seq![]);
        } else {
            let line: &[char] = &rest[0..end];
            assert(line@ =~= whole.take(end as int));
            let line: &[char] = if end > 0 && line[end - 1] == '\r' {
                &line[0..end - 1]
            } else {
                line
            };
            assert(line@ =~= strip_return(whole.take(end as int)));
            r.push(line);
            rest = &rest[end + 1..rest.len()];
            assert(rest@ =~= whole.skip(end + 1));
            assert(texts(r@) =~= texts(before) + seq![line@]);
            assert(lines(whole) =~= seq![line@] + lines(rest@));
        }
        assert(texts(r@) + lines(rest@) =~= texts(before) + lines(whole));
    }
    assert(texts(r@) + lines(rest@) =~= texts(r@));
    r
}

/// The words of `s`.
pub(crate) fn split_words(s: &[char]) -> (r: Vec<&[char]>)
    ensures
        texts(r@) == words(s@),
{
    let mut r: Vec<&[char]> = Vec::new();
    let mut rest: &[char] = s;
    assert(texts(r@) + words(rest@) =~= words(s@));
    while rest.len() > 0
        invariant
            texts(r@) + words(rest@) == words(s@),
        decreases rest@.len(),
    {
        let ghost before = r@;
        let ghost whole = rest@;
        if rest[0].is_whitespace() {
            rest = &rest[1..rest.len()];
            assert(rest@ =~= whole.drop_first());
        } else {
            let mut n: usize = 1;
            while n < rest.len() && !rest[n].is_whitespace()
                invariant
                    1 <= n <= rest@.len(),
                    forall|i: int| 0 <= i < n ==> !white_space(rest@[i]),
                decreases rest@.len() - n,
            {
                n = n + 1;
            }
            proof {
                lemma_word_len_at(rest@, n as int);
            }
            let word: &[char] = &rest[0..n];
            assert(word@ =~= whole.take(n as int));
            r.push(word);
            rest = &rest[n..rest.len()];
            assert(rest@ =~= whole.skip(n as int));
            assert(texts(r@) =~= texts(before) + seq![word@]);
            assert(words(whole) =~= seq![word@] + words(rest@)) by {
                if n >= whole.len() {
                    assert(word@ =~= whole);
                }
            }
        }
        assert(texts(r@) + words(rest@) =~= texts(before) + words(whole));
    }
    assert(texts(r@) + words(rest@) =~= texts(r@));
    r
}

/// The parts one after the other, with `sep` between each two.
pub(crate) fn join_chars(parts: &[&[char]], sep: char) -> (r: Vec<char>)
    ensures
        r@ == join(texts(parts@), seq![sep]),
{
    let mut r: Vec<char> = Vec::new();
    for i in 0..parts.len()
        invariant
            r@ == join(texts(parts@).take(i as int), seq![sep]),
    {
        let ghost all = texts(parts@);
        proof {
            lemma_join_push(all.take(i as int), all[i as int], seq![sep]);
            assert(all.take(i as int).push(all[i as int]) =~= all.take(i + 1));
        }
        if i > 0 {
            r.push(sep);
        }
        append_chars(&mut r, parts[i]);
        assert(r@ =~= join(all.take(i + 1), seq![sep]));
    }
    assert(texts(parts@).take(parts@.len() as int) =~= texts(parts@));
    r
}

} // verus!
