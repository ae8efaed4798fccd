//! One variable of an export file: reading its value, and setting it.

use crate::statement::{
    assigned_value, assigns, export_line, export_line_chars, export_prefix, statement_prefix_chars,
    value_after,
};
use crate::text::{
    chars_of, join_lines, joined, law_lines_of_joined, leading, lemma_leading,
    lemma_leading_stops, lemma_trimmed_fixed, lemma_unquoted_quoted, lines_of, lines_view,
    plain_line, plain_lines, split_lines, starts_with, string_of, trim, trimmed,
};
use vstd::prelude::*;

verus! {

/// The two values of the family `CS`.
#[derive(Debug)]
pub struct EnvConfig {
    pub cs_base_url: String,
    pub cs_auth_token: String,
}

/// The two values of the family `ANTHROPIC`.
#[derive(Debug)]
pub struct AnthropicConfig {
    pub base_url: String,
    pub auth_token: String,
}

/// The place of the first line that assigns `key`, or the number of lines
/// where none does.
pub open spec fn first_assignment(lines: Seq<Seq<char>>, key: Seq<char>) -> nat {
    leading(lines, |l: Seq<char>| !assigns(l, key))
}

/// The value of `key` in a file of these lines: that of the first line that
/// assigns it, or the empty string where none does.
pub open spec fn value_of(lines: Seq<Seq<char>>, key: Seq<char>) -> Seq<char> {
    let i = first_assignment(lines, key) as int;
    if i < lines.len() {
        assigned_value(lines[i], key)
    } else {
        Seq::empty()
    }
}

/// The lines with `key` set to `value`: the first line that assigns `key`
/// becomes `export KEY="value"`, or that line is added at the end where none
/// does.
pub open spec fn upserted(lines: Seq<Seq<char>>, key: Seq<char>, value: Seq<char>) -> Seq<
    Seq<char>,
> {
    let i = first_assignment(lines, key) as int;
    if i < lines.len() {
        lines.update(i, export_line(key, value))
    } else {
        lines.push(export_line(key, value))
    }
}

/// Reading finds what an assignment holds. Where the first line that assigns
/// `key` reads `export KEY="value"`, white space at its ends aside, and
/// `value` neither begins nor ends with a double quote, the value of `key` is
/// `value`.
pub proof fn law_value_of_assignment(lines: Seq<Seq<char>>, key: Seq<char>, value: Seq<char>)
    requires
        first_assignment(lines, key) < lines.len(),
        trimmed(lines[first_assignment(lines, key) as int]) == export_line(key, value),
        value.len() > 0 ==> value.first() != '"' && value.last() != '"',
    ensures
        value_of(lines, key) == value,
{
    let line = trimmed(lines[first_assignment(lines, key) as int]);
    let quoted = seq!['"'] + value + seq!['"'];
    assert(line == export_prefix(key) + quoted);
    assert(line.skip(export_prefix(key).len() as int) == quoted);
    lemma_unquoted_quoted(value);
}

/// Some line assigns `key` exactly when `first_assignment` is the place of a
/// line, and that line then assigns `key`.
pub proof fn lemma_first_assignment(lines: Seq<Seq<char>>, key: Seq<char>)
    ensures
        first_assignment(lines, key) <= lines.len(),
        first_assignment(lines, key) < lines.len() <==> exists|i: int|
            0 <= i < lines.len() && assigns(#[trigger] lines[i], key),
        first_assignment(lines, key) < lines.len() ==> assigns(
            lines[first_assignment(lines, key) as int],
            key,
        ),
        forall|i: int|
            0 <= i < first_assignment(lines, key) ==> !assigns(#[trigger] lines[i], key),
{
    lemma_leading_stops(lines, |l: Seq<char>| !assigns(l, key));
}

/// Setting a key that the file assigns changes one line and no other. The
/// first line that assigns `key` becomes `export KEY="value"`; the number of
/// lines and every other line stay as they were.
pub proof fn law_upsert_replaces_one_line(
    lines: Seq<Seq<char>>,
    key: Seq<char>,
    value: Seq<char>,
)
    requires
        exists|i: int| 0 <= i < lines.len() && assigns(#[trigger] lines[i], key),
    ensures
        upserted(lines, key, value).len() == lines.len(),
        first_assignment(lines, key) < lines.len(),
        upserted(lines, key, value)[first_assignment(lines, key) as int] == export_line(
            key,
            value,
        ),
        forall|j: int|
            0 <= j < lines.len() && j != first_assignment(lines, key) ==> #[trigger] upserted(
                lines,
                key,
                value,
            )[j] == lines[j],
{
    lemma_first_assignment(lines, key);
}

/// Setting a key that no line assigns adds one line at the end, `export
/// KEY="value"`, and changes none of the others.
pub proof fn law_upsert_appends_one_line(
    lines: Seq<Seq<char>>,
    key: Seq<char>,
    value: Seq<char>,
)
    requires
        forall|i: int| 0 <= i < lines.len() ==> !assigns(#[trigger] lines[i], key),
    ensures
        upserted(lines, key, value) == lines.push(export_line(key, value)),
        upserted(lines, key, value).len() == lines.len() + 1,
{
    lemma_first_assignment(lines, key);
}

/// What is set is what is read. After `key` is set to `value`, the value of
/// `key` is `value`, where `value` neither begins nor ends with a double
/// quote.
pub proof fn law_value_after_upsert(lines: Seq<Seq<char>>, key: Seq<char>, value: Seq<char>)
    requires
        value.len() > 0 ==> value.first() != '"' && value.last() != '"',
    ensures
        value_of(upserted(lines, key, value), key) == value,
{
    reveal_strlit("export ");
    let set = upserted(lines, key, value);
    let line = export_line(key, value);
    let i = first_assignment(lines, key) as int;
    lemma_first_assignment(lines, key);
    assert(line.first() == 'e');
    assert(line.last() == '"');
    lemma_trimmed_fixed(line);
    assert(line.subrange(0, export_prefix(key).len() as int) == export_prefix(key));
    assert(set[i] == line);
    lemma_leading(set, |l: Seq<char>| !assigns(l, key), i);
    law_value_of_assignment(set, key, value);
}

/// The lines of the text that setting a key gives are the lines that were
/// joined: plain lines stay plain when `key` is set to `value`, where
/// neither holds a line feed.
pub proof fn law_lines_after_upsert(lines: Seq<Seq<char>>, key: Seq<char>, value: Seq<char>)
    requires
        plain_lines(lines),
        forall|j: int| 0 <= j < key.len() ==> key[j] != '\n',
        forall|j: int| 0 <= j < value.len() ==> value[j] != '\n',
    ensures
        plain_lines(upserted(lines, key, value)),
        lines_of(joined(upserted(lines, key, value))) == upserted(lines, key, value),
{
    reveal_strlit("export ");
    let set = upserted(lines, key, value);
    let line = export_line(key, value);
    lemma_first_assignment(lines, key);
    assert(line.last() == '"');
    assert(plain_line(line));
    assert forall|i: int| 0 <= i < set.len() implies plain_line(#[trigger] set[i]) by {
        if set[i] != line {
            assert(set[i] == lines[i]);
        }
    }
    law_lines_of_joined(set);
}

/// The place of the first of `lines` that assigns `key`, or their number.
fn find_assignment(lines: &Vec<Vec<char>>, key: &Vec<char>) -> (i: usize)
    ensures
        i == first_assignment(lines_view(lines@), key@),
        i <= lines.len(),
{
    let prefix = statement_prefix_chars(key, true);
    let mut i: usize = 0;
    while i < lines.len()
        invariant
            i <= lines.len(),
            prefix@ == export_prefix(key@),
            forall|k: int| 0 <= k < i ==> !assigns(#[trigger] lines_view(lines@)[k], key@),
        decreases lines.len() - i,
    {
        let line = trim(&lines[i]);
        if starts_with(&line, &prefix) {
            proof {
                lemma_leading(lines_view(lines@), |l: Seq<char>| !assigns(l, key@), i as int);
            }
            return i;
        }
        i += 1;
    }
    proof {
        lemma_leading(lines_view(lines@), |l: Seq<char>| !assigns(l, key@), i as int);
    }
    i
}

/// Reads the value of `key` from the text of an export file: the value of
/// the first line `export KEY=...`, without the double quotes round it, or
/// the empty string where no line assigns `key`.
pub fn parse_env_value(content: &str, key: &str) -> (value: String)
    ensures
        value@ == value_of(lines_of(content@), key@),
{
    let text = chars_of(content);
    let lines = split_lines(&text);
    let key = chars_of(key);
    let i = find_assignment(&lines, &key);
    if i < lines.len() {
        proof {
            lemma_first_assignment(lines_view(lines@), key@);
        }
        let line = trim(&lines[i]);
        let prefix = statement_prefix_chars(&key, true);
        let value = value_after(&line, prefix.len());
        string_of(&value)
    } else {
        String::new()
    }
}

/// Sets `key` to `new_value` in the text of an export file. The first line
/// that assigns `key` is replaced by `export KEY="new_value"`; where no line
/// assigns it, that line is added at the end. The result is the lines joined
/// by line feeds.
pub fn update_env_value(content: &str, key: &str, new_value: &str) -> (updated: String)
    ensures
        updated@ == joined(upserted(lines_of(content@), key@, new_value@)),
{
    let text = chars_of(content);
    let mut lines = split_lines(&text);
    let key = chars_of(key);
    let value = chars_of(new_value);
    let line = export_line_chars(&key, &value);
    let i = find_assignment(&lines, &key);
    if i < lines.len() {
        lines.set(i, line);
        proof {
            assert(lines_view(lines@) == lines_of(content@).update(i as int, line@));
        }
    } else {
        proof {
            assert(lines_view(lines@.push(line)) == lines_of(content@).push(line@));
        }
        lines.push(line);
    }
    let out = join_lines(&lines);
    string_of(&out)
}

/// Reads the two values of the family `CS`.
pub fn read_env_config(content: &str) -> (config: EnvConfig)
    ensures
        config.cs_base_url@ == value_of(lines_of(content@), "CS_BASE_URL"@),
        config.cs_auth_token@ == value_of(lines_of(content@), "CS_AUTH_TOKEN"@),
{
    EnvConfig {
        cs_base_url: parse_env_value(content, "CS_BASE_URL"),
        cs_auth_token: parse_env_value(content, "CS_AUTH_TOKEN"),
    }
}

/// Sets the two values of the family `CS`, the base URL first and then, in
/// the text that this gives, the auth token.
pub fn save_env_config(content: &str, config: &EnvConfig) -> (updated: String)
    ensures
        updated@ == joined(
            upserted(
                lines_of(
                    joined(upserted(lines_of(content@), "CS_BASE_URL"@, config.cs_base_url@)),
                ),
                "CS_AUTH_TOKEN"@,
                config.cs_auth_token@,
            ),
        ),
{
    let first = update_env_value(content, "CS_BASE_URL", config.cs_base_url.as_str());
    update_env_value(first.as_str(), "CS_AUTH_TOKEN", config.cs_auth_token.as_str())
}

/// Reads the two values of the family `ANTHROPIC`.
pub fn read_anthropic_config(content: &str) -> (config: AnthropicConfig)
    ensures
        config.base_url@ == value_of(lines_of(content@), "ANTHROPIC_BASE_URL"@),
        config.auth_token@ == value_of(lines_of(content@), "ANTHROPIC_AUTH_TOKEN"@),
{
    AnthropicConfig {
        base_url: parse_env_value(content, "ANTHROPIC_BASE_URL"),
        auth_token: parse_env_value(content, "ANTHROPIC_AUTH_TOKEN"),
    }
}

/// Sets the two values of the family `ANTHROPIC`, the base URL first and
/// then, in the text that this gives, the auth token.
pub fn save_anthropic_config(content: &str, config: &AnthropicConfig) -> (updated: String)
    ensures
        updated@ == joined(
            upserted(
                lines_of(
                    joined(upserted(lines_of(content@), "ANTHROPIC_BASE_URL"@, config.base_url@)),
                ),
                "ANTHROPIC_AUTH_TOKEN"@,
                config.auth_token@,
            ),
        ),
{
    let first = update_env_value(content, "ANTHROPIC_BASE_URL", config.base_url.as_str());
    update_env_value(first.as_str(), "ANTHROPIC_AUTH_TOKEN", config.auth_token.as_str())
}

} // verus!
