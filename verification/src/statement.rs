//! Export statements: the lines `export KEY="value"` and, disabled by one
//! leading `#`, `#export KEY="value"`.

use crate::text::{append_chars, chars_of, slice_of, trimmed, unquote, unquoted};
use vstd::prelude::*;

verus! {

/// What an assignment of `key` begins with: `export KEY=`.
pub open spec fn export_prefix(key: Seq<char>) -> Seq<char> {
    "export "@ + key + seq!['=']
}

/// The assignment `export KEY="value"`.
pub open spec fn export_line(key: Seq<char>, value: Seq<char>) -> Seq<char> {
    export_prefix(key) + seq!['"'] + value + seq!['"']
}

/// What a statement on `key` begins with: `export KEY=` where it is active,
/// `#export KEY=` where it is disabled.
pub open spec fn statement_prefix(key: Seq<char>, active: bool) -> Seq<char> {
    if active {
        export_prefix(key)
    } else {
        seq!['#'] + export_prefix(key)
    }
}

/// Whether `line`, white space at its ends aside, is a statement on `key`,
/// active or disabled as `active` says.
pub open spec fn states(line: Seq<char>, key: Seq<char>, active: bool) -> bool {
    statement_prefix(key, active).is_prefix_of(trimmed(line))
}

/// The value that a statement on `key` gives: what follows `=`, without the
/// double quotes at its two ends.
pub open spec fn stated_value(line: Seq<char>, key: Seq<char>, active: bool) -> Seq<char> {
    unquoted(trimmed(line).skip(statement_prefix(key, active).len() as int))
}

/// Whether `line` is an active assignment of `key`.
pub open spec fn assigns(line: Seq<char>, key: Seq<char>) -> bool {
    states(line, key, true)
}

/// The value that an active assignment of `key` gives.
pub open spec fn assigned_value(line: Seq<char>, key: Seq<char>) -> Seq<char> {
    stated_value(line, key, true)
}

/// The characters that a statement on `key` begins with.
pub(crate) fn statement_prefix_chars(key: &Vec<char>, active: bool) -> (r: Vec<char>)
    ensures
        r@ == statement_prefix(key@, active),
{
    let mut out: Vec<char> = Vec::new();
    if !active {
        out.push('#');
    }
    let export = chars_of("export ");
    append_chars(&mut out, &export);
    append_chars(&mut out, key);
    out.push('=');
    out
}

/// The characters of the assignment `export KEY="value"`.
pub(crate) fn export_line_chars(key: &Vec<char>, value: &Vec<char>) -> (r: Vec<char>)
    ensures
        r@ == export_line(key@, value@),
{
    let mut out = statement_prefix_chars(key, true);
    out.push('"');
    append_chars(&mut out, value);
    out.push('"');
    out
}

/// The value of a statement, given the statement without the white space at
/// its ends and the length of what it begins with.
pub(crate) fn value_after(statement: &Vec<char>, prefix_len: usize) -> (r: Vec<char>)
    requires
        prefix_len <= statement.len(),
    ensures
        r@ == unquoted(statement@.skip(prefix_len as int)),
{
    let rest = slice_of(statement, prefix_len, statement.len());
    unquote(&rest)
}

} // verus!
