//! Characters, lines and the few string operations the editor is built from.
//!
//! Every specification here is over `Seq<char>`, the view of `str` and
//! `String`; executable code works on `Vec<char>`.

use vstd::prelude::*;

verus! {

/// Of `String::push`, the standard library's own: after the call the string
/// holds the characters that it held, in their order, and then `ch`. This is
/// what the standard library documents of it; it is taken on trust here and
/// not proved.
pub assume_specification[ String::push ](s: &mut String, ch: char)
    ensures
        final(s)@ == old(s)@.push(ch),
;

/// Whether `c` has the Unicode property `White_Space`.
pub open spec fn is_space(c: char) -> bool {
    ||| '\u{9}' <= c <= '\u{d}'
    ||| c == ' '
    ||| c == '\u{85}'
    ||| c == '\u{a0}'
    ||| c == '\u{1680}'
    ||| '\u{2000}' <= c <= '\u{200a}'
    ||| c == '\u{2028}'
    ||| c == '\u{2029}'
    ||| c == '\u{202f}'
    ||| c == '\u{205f}'
    ||| c == '\u{3000}'
}

/// How many items at the front of `s` belong to `class` without a break.
pub open spec fn leading<A>(s: Seq<A>, class: spec_fn(A) -> bool) -> nat
    decreases s.len(),
{
    if s.len() > 0 && class(s[0]) {
        1 + leading(s.drop_first(), class)
    } else {
        0
    }
}

/// How many items at the back of `s` belong to `class` without a break.
pub open spec fn trailing<A>(s: Seq<A>, class: spec_fn(A) -> bool) -> nat
    decreases s.len(),
{
    if s.len() > 0 && class(s.last()) {
        1 + trailing(s.drop_last(), class)
    } else {
        0
    }
}

/// `s` without the characters of `class` at its two ends.
pub open spec fn stripped(s: Seq<char>, class: spec_fn(char) -> bool) -> Seq<char> {
    if leading(s, class) == s.len() {
        Seq::empty()
    } else {
        s.subrange(leading(s, class) as int, s.len() - trailing(s, class))
    }
}

/// `s` without the white space at its two ends.
pub open spec fn trimmed(s: Seq<char>) -> Seq<char> {
    stripped(s, |c: char| is_space(c))
}

/// `s` without the double quotes at its two ends, however many there are.
pub open spec fn unquoted(s: Seq<char>) -> Seq<char> {
    stripped(s, |c: char| c == '"')
}

/// `l` without one carriage return at its end.
pub open spec fn without_cr(l: Seq<char>) -> Seq<char> {
    if l.len() > 0 && l.last() == '\r' {
        l.drop_last()
    } else {
        l
    }
}

/// The length of the first line of `s`: the place of its first line feed, or
/// the length of `s` where it holds none.
pub open spec fn line_end(s: Seq<char>) -> nat {
    leading(s, |c: char| c != '\n')
}

/// The lines of a text. A line ends at a line feed, or at a carriage return
/// directly followed by one; neither belongs to the line. What follows the
/// last line feed is a line of its own unless it is empty.
pub open spec fn lines_of(s: Seq<char>) -> Seq<Seq<char>>
    decreases s.len(),
{
    let n = line_end(s) as int;
    if s.len() == 0 {
        Seq::empty()
    } else if n >= s.len() {
        seq![s]
    } else {
        seq![without_cr(s.take(n))] + lines_of(s.skip(n + 1))
    }
}

/// The lines with one line feed between each two of them.
pub open spec fn joined(lines: Seq<Seq<char>>) -> Seq<char>
    decreases lines.len(),
{
    if lines.len() == 0 {
        Seq::empty()
    } else if lines.len() == 1 {
        lines[0]
    } else {
        joined(lines.drop_last()) + seq!['\n'] + lines.last()
    }
}

/// What a vector of lines holds, each line by its view.
pub open spec fn lines_view(lines: Seq<Vec<char>>) -> Seq<Seq<char>> {
    lines.map_values(|l: Vec<char>| l@)
}

/// `leading` is `n` where the first `n` items are of the class and the next
/// one, if there is one, is not.
pub proof fn lemma_leading<A>(s: Seq<A>, class: spec_fn(A) -> bool, n: int)
    requires
        0 <= n <= s.len(),
        forall|i: int| 0 <= i < n ==> class(#[trigger] s[i]),
        n < s.len() ==> !class(s[n]),
    ensures
        leading(s, class) == n,
    decreases n,
{
    if n > 0 {
        lemma_leading(s.drop_first(), class, n - 1);
    }
}

/// `leading` stops at the first item that is not of the class: every item
/// before that place is of the class, and the item at it, if there is one,
/// is not.
pub proof fn lemma_leading_stops<A>(s: Seq<A>, class: spec_fn(A) -> bool)
    ensures
        leading(s, class) <= s.len(),
        forall|i: int| 0 <= i < leading(s, class) ==> class(#[trigger] s[i]),
        leading(s, class) < s.len() ==> !class(s[leading(s, class) as int]),
    decreases s.len(),
{
    if s.len() > 0 && class(s[0]) {
        let rest = s.drop_first();
        lemma_leading_stops(rest, class);
        assert forall|i: int| 0 <= i < leading(s, class) implies class(#[trigger] s[i]) by {
            if i > 0 {
                assert(s[i] == rest[i - 1]);
            }
        }
        assert(leading(s, class) < s.len() ==> s[leading(s, class) as int] == rest[leading(
            rest,
            class,
        ) as int]);
    }
}

/// `trailing` is `n` where the last `n` items are of the class and the one
/// before them, if there is one, is not.
pub proof fn lemma_trailing<A>(s: Seq<A>, class: spec_fn(A) -> bool, n: int)
    requires
        0 <= n <= s.len(),
        forall|i: int| s.len() - n <= i < s.len() ==> class(#[trigger] s[i]),
        n < s.len() ==> !class(s[s.len() - n - 1]),
    ensures
        trailing(s, class) == n,
    decreases n,
{
    if n > 0 {
        lemma_trailing(s.drop_last(), class, n - 1);
    }
}

/// `trailing` stops at the last item that is not of the class: every item
/// after that place is of the class, and the item at it, if there is one,
/// is not.
pub proof fn lemma_trailing_stops<A>(s: Seq<A>, class: spec_fn(A) -> bool)
    ensures
        trailing(s, class) <= s.len(),
        forall|i: int| s.len() - trailing(s, class) <= i < s.len() ==> class(#[trigger] s[i]),
        trailing(s, class) < s.len() ==> !class(s[s.len() - trailing(s, class) - 1]),
    decreases s.len(),
{
    if s.len() > 0 && class(s.last()) {
        let rest = s.drop_last();
        lemma_trailing_stops(rest, class);
        assert forall|i: int| s.len() - trailing(s, class) <= i < s.len() implies class(
            #[trigger] s[i],
        ) by {
            if i < s.len() - 1 {
                assert(s[i] == rest[i]);
            }
        }
        assert(trailing(s, class) < s.len() ==> s[s.len() - trailing(s, class) - 1] == rest[rest.len()
            - trailing(rest, class) - 1]);
    }
}

/// A trimmed text neither begins nor ends with white space.
pub proof fn lemma_trimmed_ends(s: Seq<char>)
    ensures
        trimmed(s).len() > 0 ==> !is_space(trimmed(s).first()) && !is_space(trimmed(s).last()),
{
    let class = |c: char| is_space(c);
    lemma_leading_stops(s, class);
    lemma_trailing_stops(s, class);
    if leading(s, class) < s.len() {
        let a = leading(s, class) as int;
        let b = s.len() - trailing(s, class);
        if b <= a {
            assert(class(s[a]));
        }
    }
}

/// A text that neither begins nor ends with white space is its own trimmed
/// form.
pub proof fn lemma_trimmed_fixed(s: Seq<char>)
    requires
        s.len() > 0 ==> !is_space(s.first()) && !is_space(s.last()),
    ensures
        trimmed(s) == s,
{
    let class = |c: char| is_space(c);
    lemma_leading(s, class, 0);
    lemma_trailing(s, class, 0);
    if s.len() > 0 {
        assert(s.subrange(0, s.len() as int) == s);
    }
}

/// Whether a line can stand in a text as it is: it holds no line feed and
/// does not end with a carriage return.
pub open spec fn plain_line(line: Seq<char>) -> bool {
    &&& forall|j: int| 0 <= j < line.len() ==> line[j] != '\n'
    &&& line.len() > 0 ==> line.last() != '\r'
}

/// Whether a text can hold these lines as they are: every line is plain, and
/// the last is not empty.
pub open spec fn plain_lines(lines: Seq<Seq<char>>) -> bool {
    &&& forall|i: int| 0 <= i < lines.len() ==> plain_line(#[trigger] lines[i])
    &&& lines.len() > 0 ==> lines.last().len() > 0
}

/// The trimmed form of a text that holds no line feed is a plain line.
pub proof fn lemma_trimmed_plain(s: Seq<char>)
    requires
        forall|j: int| 0 <= j < s.len() ==> s[j] != '\n',
    ensures
        plain_line(trimmed(s)),
{
    let class = |c: char| is_space(c);
    lemma_leading_stops(s, class);
    lemma_trailing_stops(s, class);
    lemma_trimmed_ends(s);
    let a = leading(s, class) as int;
    let b = s.len() - trailing(s, class);
    if a == s.len() {
        assert(trimmed(s) == s.subrange(a, a));
    } else {
        if b <= a {
            assert(class(s[a]));
        }
        assert(trimmed(s) == s.subrange(a, b));
    }
}

/// The joined text of two lines or more is the first line, a line feed, and
/// the joined text of the others.
pub proof fn lemma_joined_front(lines: Seq<Seq<char>>)
    requires
        lines.len() >= 2,
    ensures
        joined(lines) == lines[0] + seq!['\n'] + joined(lines.drop_first()),
    decreases lines.len(),
{
    let tail = lines.drop_first();
    if lines.len() == 2 {
        assert(joined(lines.drop_last()) == lines[0]);
        assert(joined(tail) == lines[1]);
    } else {
        lemma_joined_front(lines.drop_last());
        assert(lines.drop_last().drop_first() == tail.drop_last());
        assert(joined(tail) == joined(tail.drop_last()) + seq!['\n'] + tail.last());
        assert(lines[0] + seq!['\n'] + (joined(tail.drop_last()) + seq!['\n'] + lines.last())
            == (lines[0] + seq!['\n'] + joined(tail.drop_last())) + seq!['\n'] + lines.last());
    }
}

/// Splitting undoes joining: the joined text of plain lines has exactly
/// those lines.
pub proof fn law_lines_of_joined(lines: Seq<Seq<char>>)
    requires
        plain_lines(lines),
    ensures
        lines_of(joined(lines)) == lines,
    decreases lines.len(),
{
    let class = |c: char| c != '\n';
    if lines.len() == 1 {
        lemma_leading(lines[0], class, lines[0].len() as int);
        assert(seq![lines[0]] == lines);
    } else if lines.len() >= 2 {
        let first = lines[0];
        let tail = lines.drop_first();
        let text = joined(lines);
        lemma_joined_front(lines);
        assert(plain_lines(tail)) by {
            assert forall|i: int| 0 <= i < tail.len() implies plain_line(#[trigger] tail[i]) by {
                assert(tail[i] == lines[i + 1]);
            }
            assert(tail.last() == lines.last());
        }
        law_lines_of_joined(tail);
        assert forall|i: int| 0 <= i < first.len() implies class(#[trigger] text[i]) by {
            assert(text[i] == first[i]);
        }
        assert(text[first.len() as int] == '\n');
        lemma_leading(text, class, first.len() as int);
        assert(text.take(first.len() as int) == first);
        assert(text.skip(first.len() as int + 1) == joined(tail));
        assert(without_cr(first) == first);
        assert(seq![first] + tail == lines);
    }
}

/// Joining undoes splitting, but for the last line feed: the joined lines of
/// a text that holds no carriage return are the text, without the line feed
/// at its end where it ends with one.
pub proof fn law_joined_lines_of(s: Seq<char>)
    requires
        forall|i: int| 0 <= i < s.len() ==> s[i] != '\r',
    ensures
        joined(lines_of(s)) == if s.len() > 0 && s.last() == '\n' {
            s.drop_last()
        } else {
            s
        },
    decreases s.len(),
{
    let class = |c: char| c != '\n';
    let n = line_end(s) as int;
    lemma_leading_stops(s, class);
    if s.len() > 0 && n < s.len() {
        let first = s.take(n);
        let rest = s.skip(n + 1);
        let others = lines_of(rest);
        law_joined_lines_of(rest);
        assert(without_cr(first) == first) by {
            if first.len() > 0 {
                assert(first.last() == s[n - 1]);
            }
        }
        if rest.len() == 0 {
            assert(seq![first] + others == seq![first]);
            assert(first == s.drop_last());
        } else {
            let all = seq![first] + others;
            assert(others.len() > 0);
            assert(all.drop_first() == others);
            lemma_joined_front(all);
            assert(rest.last() == s.last());
            if rest.last() == '\n' {
                assert(first + seq!['\n'] + rest.drop_last() == s.drop_last());
            } else {
                assert(first + seq!['\n'] + rest == s);
            }
        }
    }
}

/// A text between two double quotes loses exactly those two when it is
/// unquoted, if it neither begins nor ends with a double quote itself.
pub proof fn lemma_unquoted_quoted(value: Seq<char>)
    requires
        value.len() > 0 ==> value.first() != '"' && value.last() != '"',
    ensures
        unquoted(seq!['"'] + value + seq!['"']) == value,
{
    let s = seq!['"'] + value + seq!['"'];
    let class = |c: char| c == '"';
    if value.len() == 0 {
        lemma_leading(s, class, 2);
    } else {
        assert(s[1] == value.first());
        assert(s[s.len() - 2] == value.last());
        lemma_leading(s, class, 1);
        lemma_trailing(s, class, 1);
        assert(s.subrange(1, s.len() - 1) == value);
    }
}

/// Tests a character for the Unicode property `White_Space`.
pub fn is_whitespace(c: char) -> (r: bool)
    ensures
        r == is_space(c),
{
    ('\u{9}' <= c && c <= '\u{d}')
        || c == ' '
        || c == '\u{85}'
        || c == '\u{a0}'
        || c == '\u{1680}'
        || ('\u{2000}' <= c && c <= '\u{200a}')
        || c == '\u{2028}'
        || c == '\u{2029}'
        || c == '\u{202f}'
        || c == '\u{205f}'
        || c == '\u{3000}'
}

/// The characters of `s`, in order.
pub fn chars_of(s: &str) -> (r: Vec<char>)
    ensures
        r@ == s@,
{
    let mut out: Vec<char> = Vec::new();
    for c in it: s.chars()
        invariant
            out@ == it.seq().take(it.index()),
            it.seq() == s@,
    {
        out.push(c);
    }
    out
}

/// The string made of `chars`, in order.
pub fn string_of(chars: &Vec<char>) -> (r: String)
    ensures
        r@ == chars@,
{
    let mut out = String::new();
    let mut i: usize = 0;
    while i < chars.len()
        invariant
            i <= chars.len(),
            out@ == chars@.take(i as int),
        decreases chars.len() - i,
    {
        out.push(chars[i]);
        i += 1;
    }
    out
}

/// The characters of `v` from place `from` up to, not including, place `to`.
pub(crate) fn slice_of(v: &Vec<char>, from: usize, to: usize) -> (r: Vec<char>)
    requires
        from <= to <= v.len(),
    ensures
        r@ == v@.subrange(from as int, to as int),
{
    let mut out: Vec<char> = Vec::new();
    let mut i: usize = from;
    while i < to
        invariant
            from <= i <= to <= v.len(),
            out@ == v@.subrange(from as int, i as int),
        decreases to - i,
    {
        out.push(v[i]);
        i += 1;
    }
    out
}

/// `line` without the white space at its two ends.
pub fn trim(line: &Vec<char>) -> (r: Vec<char>)
    ensures
        r@ == trimmed(line@),
{
    let n = line.len();
    let mut a: usize = 0;
    while a < n && is_whitespace(line[a])
        invariant
            a <= n == line.len(),
            forall|i: int| 0 <= i < a ==> is_space(#[trigger] line@[i]),
        decreases n - a,
    {
        a += 1;
    }
    let mut b: usize = n;
    while b > a && is_whitespace(line[b - 1])
        invariant
            a <= b <= n == line.len(),
            forall|i: int| b <= i < n ==> is_space(#[trigger] line@[i]),
        decreases b,
    {
        b -= 1;
    }
    proof {
        let class = |c: char| is_space(c);
        lemma_leading(line@, class, a as int);
        if a < n {
            lemma_trailing(line@, class, n - b);
        }
    }
    slice_of(line, a, b)
}

/// `text` without the double quotes at its two ends.
pub fn unquote(text: &Vec<char>) -> (r: Vec<char>)
    ensures
        r@ == unquoted(text@),
{
    let n = text.len();
    let mut a: usize = 0;
    while a < n && text[a] == '"'
        invariant
            a <= n == text.len(),
            forall|i: int| 0 <= i < a ==> #[trigger] text@[i] == '"',
        decreases n - a,
    {
        a += 1;
    }
    let mut b: usize = n;
    while b > a && text[b - 1] == '"'
        invariant
            a <= b <= n == text.len(),
            forall|i: int| b <= i < n ==> #[trigger] text@[i] == '"',
        decreases b,
    {
        b -= 1;
    }
    proof {
        let class = |c: char| c == '"';
        lemma_leading(text@, class, a as int);
        if a < n {
            lemma_trailing(text@, class, n - b);
        }
    }
    slice_of(text, a, b)
}

/// Whether `line` begins with `prefix`.
pub fn starts_with(line: &Vec<char>, prefix: &Vec<char>) -> (r: bool)
    ensures
        r == prefix@.is_prefix_of(line@),
{
    if prefix.len() > line.len() {
        return false;
    }
    let mut i: usize = 0;
    while i < prefix.len()
        invariant
            i <= prefix.len() <= line.len(),
            forall|k: int| 0 <= k < i ==> prefix@[k] == line@[k],
        decreases prefix.len() - i,
    {
        if prefix[i] != line[i] {
            return false;
        }
        i += 1;
    }
    true
}

/// Splits a text into its lines.
pub fn split_lines(text: &Vec<char>) -> (lines: Vec<Vec<char>>)
    ensures
        lines_view(lines@) == lines_of(text@),
{
    let n = text.len();
    let mut lines: Vec<Vec<char>> = Vec::new();
    let mut start: usize = 0;
    let mut i: usize = 0;
    proof {
        assert(text@.skip(0) == text@);
        assert(lines_view(lines@) + lines_of(text@) == lines_of(text@));
    }
    while i < n
        invariant
            start <= i <= n == text.len(),
            forall|k: int| start <= k < i ==> #[trigger] text@[k] != '\n',
            lines_of(text@) == lines_view(lines@) + lines_of(text@.skip(start as int)),
        decreases n - i,
    {
        if text[i] == '\n' {
            let end = if i > start && text[i - 1] == '\r' {
                i - 1
            } else {
                i
            };
            let line = slice_of(text, start, end);
            proof {
                let rest = text@.skip(start as int);
                lemma_leading(rest, |c: char| c != '\n', i - start);
                assert(rest.take(i - start) == text@.subrange(start as int, i as int));
                assert(rest.skip(i - start + 1) == text@.skip(i + 1));
                assert(line@ == without_cr(rest.take(i - start)));
                assert(lines_view(lines@.push(line)) == lines_view(lines@).push(line@));
            }
            lines.push(line);
            start = i + 1;
        }
        i += 1;
    }
    if start < n {
        let line = slice_of(text, start, n);
        proof {
            let rest = text@.skip(start as int);
            lemma_leading(rest, |c: char| c != '\n', n - start);
            assert(line@ == rest);
            assert(lines_view(lines@.push(line)) == lines_view(lines@).push(line@));
        }
        lines.push(line);
    }
    lines
}

/// Appends the characters of `more` to `out`.
pub fn append_chars(out: &mut Vec<char>, more: &Vec<char>)
    ensures
        final(out)@ == old(out)@ + more@,
{
    let mut k: usize = 0;
    while k < more.len()
        invariant
            k <= more.len(),
            out@ == old(out)@ + more@.take(k as int),
        decreases more.len() - k,
    {
        out.push(more[k]);
        k += 1;
    }
    proof {
        assert(more@.take(k as int) == more@);
    }
}

/// Joins lines with one line feed between each two of them.
pub fn join_lines(lines: &Vec<Vec<char>>) -> (text: Vec<char>)
    ensures
        text@ == joined(lines_view(lines@)),
{
    let mut text: Vec<char> = Vec::new();
    let mut i: usize = 0;
    while i < lines.len()
        invariant
            i <= lines.len(),
            text@ == joined(lines_view(lines@).take(i as int)),
        decreases lines.len() - i,
    {
        if i > 0 {
            text.push('\n');
        }
        append_chars(&mut text, &lines[i]);
        proof {
            let all = lines_view(lines@);
            assert(all.take(i + 1).drop_last() == all.take(i as int));
            assert(all.take(i + 1).last() == lines@[i as int]@);
        }
        i += 1;
    }
    proof {
        assert(lines_view(lines@).take(i as int) == lines_view(lines@));
    }
    text
}

} // verus!
