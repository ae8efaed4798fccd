//! The base URL in the text of a Codex configuration: the line `base_url`
//! of its table `[model_providers.custom]`.

use crate::text::{
    append_chars, chars_of, join_lines, joined, lines_of, lines_view, split_lines, starts_with,
    string_of, trim, trimmed,
};
use vstd::prelude::*;

verus! {

/// The base URL and the API key of a tool.
#[derive(Debug)]
pub struct CodexConfig {
    pub base_url: String,
    pub api_key: String,
}

/// Whether `line` is the header of the table of the custom provider.
pub open spec fn is_custom_header(line: Seq<char>) -> bool {
    trimmed(line) == "[model_providers.custom]"@
}

/// Whether `line` begins with `[`, as the header of every table does.
pub open spec fn opens_table(line: Seq<char>) -> bool {
    trimmed(line).len() > 0 && trimmed(line)[0] == '['
}

/// Whether `line` begins with `base_url`.
pub open spec fn names_base_url(line: Seq<char>) -> bool {
    "base_url"@.is_prefix_of(trimmed(line))
}

/// Whether line `j` lies in the table of the custom provider: the last line
/// before it that begins with `[` is the header of that table.
pub open spec fn in_custom_table(lines: Seq<Seq<char>>, j: int) -> bool
    decreases j,
{
    if j <= 0 {
        false
    } else if is_custom_header(lines[j - 1]) {
        true
    } else if opens_table(lines[j - 1]) {
        false
    } else {
        in_custom_table(lines, j - 1)
    }
}

/// The line that sets the base URL: `base_url = "value"`.
pub open spec fn base_url_line(value: Seq<char>) -> Seq<char> {
    "base_url = \""@ + value + seq!['"']
}

/// Line `j` with the base URL set: a line of the custom provider's table
/// that begins with `base_url` becomes `base_url = "value"`, every other
/// line stays as it is.
pub open spec fn base_url_set_at(lines: Seq<Seq<char>>, value: Seq<char>, j: int) -> Seq<char> {
    if in_custom_table(lines, j) && names_base_url(lines[j]) {
        base_url_line(value)
    } else {
        lines[j]
    }
}

/// The lines with the base URL of the custom provider set to `value`.
pub open spec fn with_base_url(lines: Seq<Seq<char>>, value: Seq<char>) -> Seq<Seq<char>> {
    Seq::new(lines.len(), |j: int| base_url_set_at(lines, value, j))
}

/// Whether line `h` is the header of the custom provider's table, stands
/// before line `j`, and no line between the two begins with `[`.
pub open spec fn header_reaches(lines: Seq<Seq<char>>, h: int, j: int) -> bool {
    &&& 0 <= h < j
    &&& is_custom_header(lines[h])
    &&& forall|k: int| h < k < j ==> !opens_table(#[trigger] lines[k])
}

/// A line is in the custom provider's table exactly when the header of that
/// table stands somewhere before it and no line between the two begins with
/// `[`.
pub proof fn law_custom_table(lines: Seq<Seq<char>>, j: int)
    requires
        0 <= j <= lines.len(),
    ensures
        in_custom_table(lines, j) <==> exists|h: int| header_reaches(lines, h, j),
    decreases j,
{
    if j > 0 {
        let prev = j - 1;
        law_custom_table(lines, prev);
        reveal_strlit("[model_providers.custom]");
        if is_custom_header(lines[j - 1]) {
            assert(header_reaches(lines, j - 1, j));
        } else if opens_table(lines[j - 1]) {
            assert forall|h: int| !header_reaches(lines, h, j) by {
                if header_reaches(lines, h, j) {
                    assert(!opens_table(lines[j - 1]));
                }
            }
        } else {
            if in_custom_table(lines, j - 1) {
                let h = choose|h: int| header_reaches(lines, h, prev);
                assert(header_reaches(lines, h, j));
            } else {
                assert forall|h: int| !header_reaches(lines, h, j) by {
                    if header_reaches(lines, h, j) {
                        assert(header_reaches(lines, h, prev));
                    }
                }
            }
        }
    }
}

/// Sets the base URL of the custom provider in the text of a Codex
/// configuration. Every line of the table `[model_providers.custom]` that
/// begins with `base_url` becomes `base_url = "base_url"`; every other line
/// stays as it is, and the lines are joined by line feeds.
pub fn set_codex_base_url(content: &str, base_url: &str) -> (updated: String)
    ensures
        updated@ == joined(with_base_url(lines_of(content@), base_url@)),
{
    let text = chars_of(content);
    let lines = split_lines(&text);
    let header = chars_of("[model_providers.custom]");
    let name = chars_of("base_url");
    let mut new_line = chars_of("base_url = \"");
    append_chars(&mut new_line, &chars_of(base_url));
    new_line.push('"');
    let mut out: Vec<Vec<char>> = Vec::new();
    let mut in_table = false;
    let mut j: usize = 0;
    while j < lines.len()
        invariant
            j <= lines.len(),
            header@ == "[model_providers.custom]"@,
            name@ == "base_url"@,
            new_line@ == base_url_line(base_url@),
            in_table == in_custom_table(lines_view(lines@), j as int),
            lines_view(out@) == with_base_url(lines_view(lines@), base_url@).take(j as int),
        decreases lines.len() - j,
    {
        let line = trim(&lines[j]);
        let mut next = lines[j].clone();
        if line.len() == header.len() && starts_with(&line, &header) {
            in_table = true;
        } else if line.len() > 0 && line[0] == '[' && in_table {
            in_table = false;
        } else if in_table && starts_with(&line, &name) {
            next = new_line.clone();
        }
        proof {
            let all = lines_view(lines@);
            let after = with_base_url(all, base_url@);
            reveal_strlit("[model_providers.custom]");
            reveal_strlit("base_url");
            if line.len() == header.len() {
                assert(line@.subrange(0, header.len() as int) == line@);
            }
            if names_base_url(all[j as int]) {
                assert(line@.subrange(0, 8)[0] == 'b');
            }
            assert(next@ == base_url_set_at(all, base_url@, j as int));
            assert(in_table == in_custom_table(all, j + 1));
            assert(lines_view(out@.push(next)) == lines_view(out@).push(next@));
            assert(after.take(j + 1) == after.take(j as int).push(after[j as int]));
        }
        out.push(next);
        j += 1;
    }
    proof {
        let after = with_base_url(lines_view(lines@), base_url@);
        assert(after.take(j as int) == after);
    }
    string_of(&join_lines(&out))
}

} // verus!
