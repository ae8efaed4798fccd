//! Switching a family to another of its groups: the active groups are
//! disabled, and the first disabled group that holds the wanted values is
//! made active.

use crate::env_file::EnvConfig;
use crate::groups::{
    auth_token_key, base_url_key, group_at, group_starts, groups_of, lemma_group_starts,
    lemma_groups_do_not_overlap, lemma_statements_differ, list_groups, pair_at, starts_group,
    ConfigGroup, Family, GroupView,
};
use crate::statement::{stated_value, statement_prefix, states};
use crate::text::{
    append_chars, chars_of, join_lines, joined, law_lines_of_joined, lemma_trimmed_ends,
    lemma_trimmed_fixed, lemma_trimmed_plain, lines_of, lines_view, plain_line, plain_lines,
    slice_of, split_lines, string_of, trim, trimmed,
};
use vstd::prelude::*;

verus! {

/// Why a switch was refused.
#[derive(Clone, Copy, Debug, PartialEq, Eq)]
pub enum SwitchError {
    /// The index names no group of the list.
    InvalidIndex,
}

impl SwitchError {
    /// The error in words.
    pub fn message(&self) -> (text: String)
        ensures
            text@ == "Invalid config index"@,
    {
        match self {
            SwitchError::InvalidIndex => "Invalid config index".to_owned(),
        }
    }
}

/// What a switch of the family `CS` changes: the new text of the export
/// file, and the two values that are now active.
#[derive(Debug)]
pub struct CsSwitch {
    pub content: String,
    pub config: EnvConfig,
}

/// A line disabled: `#`, then the line without the white space at its ends.
pub open spec fn commented(line: Seq<char>) -> Seq<char> {
    seq!['#'] + trimmed(line)
}

/// A disabled line made active: the line without the white space at its ends
/// and without the `#` that it begins with.
pub open spec fn uncommented(line: Seq<char>) -> Seq<char> {
    trimmed(line).drop_first()
}

/// Whether a disabled group starts at line `p` and holds the two values of
/// `target`.
pub open spec fn matches_at(
    lines: Seq<Seq<char>>,
    prefix: Seq<char>,
    p: int,
    target: GroupView,
) -> bool {
    &&& pair_at(lines, prefix, p, false)
    &&& group_at(lines, prefix, p).base_url == target.base_url
    &&& group_at(lines, prefix, p).auth_token == target.auth_token
}

/// The first place from `from` on at which a disabled group with the values
/// of `target` starts, or the number of lines where there is none.
pub open spec fn first_match(
    lines: Seq<Seq<char>>,
    prefix: Seq<char>,
    target: GroupView,
    from: int,
) -> int
    decreases lines.len() - from,
{
    if from >= lines.len() {
        lines.len() as int
    } else if matches_at(lines, prefix, from, target) {
        from
    } else {
        first_match(lines, prefix, target, from + 1)
    }
}

/// Whether line `j` belongs to an active group.
pub open spec fn in_active_group(lines: Seq<Seq<char>>, prefix: Seq<char>, j: int) -> bool {
    pair_at(lines, prefix, j, true) || pair_at(lines, prefix, j - 1, true)
}

/// Whether line `j` belongs to the group that a switch to `target` makes
/// active.
pub open spec fn in_chosen_group(
    lines: Seq<Seq<char>>,
    prefix: Seq<char>,
    target: GroupView,
    j: int,
) -> bool {
    let m = first_match(lines, prefix, target, 0);
    m < lines.len() && (j == m || j == m + 1)
}

/// Line `j` after a switch to `target`. A line of an active group is
/// disabled; a line of the first disabled group with the values of `target`
/// is made active; every other line stays as it is.
pub open spec fn switched_line(
    lines: Seq<Seq<char>>,
    prefix: Seq<char>,
    target: GroupView,
    j: int,
) -> Seq<char> {
    if in_active_group(lines, prefix, j) {
        commented(lines[j])
    } else if in_chosen_group(lines, prefix, target, j) {
        uncommented(lines[j])
    } else {
        lines[j]
    }
}

/// The lines after a switch to `target`.
pub open spec fn switched(lines: Seq<Seq<char>>, prefix: Seq<char>, target: GroupView) -> Seq<
    Seq<char>,
> {
    Seq::new(lines.len(), |j: int| switched_line(lines, prefix, target, j))
}

/// `first_match` is `m` where no group from `from` up to `m` matches and one
/// at `m` does, or `m` is the number of lines.
pub proof fn lemma_first_match(
    lines: Seq<Seq<char>>,
    prefix: Seq<char>,
    target: GroupView,
    from: int,
    m: int,
)
    requires
        0 <= from <= m <= lines.len(),
        forall|q: int| from <= q < m ==> !matches_at(lines, prefix, q, target),
        m < lines.len() ==> matches_at(lines, prefix, m, target),
    ensures
        first_match(lines, prefix, target, from) == m,
    decreases m - from,
{
    if from < m {
        lemma_first_match(lines, prefix, target, from + 1, m);
    }
}

/// What `first_match` holds: the place of a matching group where it is the
/// place of a line, and no matching group starts before it.
pub proof fn lemma_first_match_stops(
    lines: Seq<Seq<char>>,
    prefix: Seq<char>,
    target: GroupView,
    from: int,
)
    requires
        0 <= from,
    ensures
        from <= first_match(lines, prefix, target, from) || lines.len() <= from,
        first_match(lines, prefix, target, from) <= lines.len() || lines.len() <= from,
        first_match(lines, prefix, target, from) < lines.len() ==> matches_at(
            lines,
            prefix,
            first_match(lines, prefix, target, from),
            target,
        ),
        forall|q: int|
            from <= q < first_match(lines, prefix, target, from) ==> !matches_at(
                lines,
                prefix,
                q,
                target,
            ),
    decreases lines.len() - from,
{
    if from < lines.len() && !matches_at(lines, prefix, from, target) {
        lemma_first_match_stops(lines, prefix, target, from + 1);
    }
}

/// A disabled line is a disabled statement on exactly the keys on which the
/// line was an active one, with the same value, and an active statement on
/// none.
pub proof fn lemma_commented(line: Seq<char>, key: Seq<char>)
    requires
        trimmed(line).len() > 0,
    ensures
        !states(commented(line), key, true),
        states(commented(line), key, false) <==> states(line, key, true),
        states(line, key, true) ==> stated_value(commented(line), key, false) == stated_value(
            line,
            key,
            true,
        ),
{
    reveal_strlit("export ");
    let t = trimmed(line);
    let c = commented(line);
    lemma_trimmed_ends(line);
    assert(c.last() == t.last());
    lemma_trimmed_fixed(c);
    let on = statement_prefix(key, true);
    let off = statement_prefix(key, false);
    assert(off == seq!['#'] + on);
    if on.is_prefix_of(c) {
        assert(c.subrange(0, on.len() as int)[0] == on[0]);
    }
    if on.is_prefix_of(t) {
        assert(c.subrange(0, off.len() as int) == seq!['#'] + t.subrange(0, on.len() as int));
        assert(c.skip(off.len() as int) == t.skip(on.len() as int));
    }
    if off.is_prefix_of(c) {
        assert(t.subrange(0, on.len() as int) == c.subrange(0, off.len() as int).drop_first());
        assert(off.drop_first() == on);
    }
}

/// A disabled statement made active is an active statement on exactly the
/// keys on which the line was a disabled one, with the same value, and a
/// disabled statement on none.
pub proof fn lemma_uncommented(line: Seq<char>, disabled_key: Seq<char>, key: Seq<char>)
    requires
        states(line, disabled_key, false),
    ensures
        !states(uncommented(line), key, false),
        states(uncommented(line), key, true) <==> states(line, key, false),
        states(line, key, false) ==> stated_value(uncommented(line), key, true) == stated_value(
            line,
            key,
            false,
        ),
{
    reveal_strlit("export ");
    let t = trimmed(line);
    let u = uncommented(line);
    lemma_trimmed_ends(line);
    let known = statement_prefix(disabled_key, false);
    assert(t.subrange(0, known.len() as int)[0] == known[0]);
    assert(t.subrange(0, known.len() as int)[1] == known[1]);
    assert(u.first() == 'e');
    assert(u.last() == t.last());
    lemma_trimmed_fixed(u);
    let on = statement_prefix(key, true);
    let off = statement_prefix(key, false);
    assert(off == seq!['#'] + on);
    if off.is_prefix_of(u) {
        assert(u.subrange(0, off.len() as int)[0] == off[0]);
    }
    if on.is_prefix_of(u) {
        assert(t.subrange(0, off.len() as int) == seq!['#'] + u.subrange(0, on.len() as int));
    }
    if off.is_prefix_of(t) {
        assert(u.subrange(0, on.len() as int) == t.subrange(0, off.len() as int).drop_first());
        assert(off.drop_first() == on);
        assert(u.skip(on.len() as int) == t.skip(off.len() as int));
    }
}

/// What line `j` states after a switch: a line of an active group is the
/// disabled statement that it was an active one of, a line of the chosen
/// group is the active statement that it was a disabled one of, and every
/// other line states what it did.
proof fn lemma_switched_line(
    lines: Seq<Seq<char>>,
    prefix: Seq<char>,
    target: GroupView,
    j: int,
    key: Seq<char>,
)
    requires
        0 <= j < lines.len(),
    ensures
        ({
            let old_line = lines[j];
            let new_line = switched(lines, prefix, target)[j];
            if in_active_group(lines, prefix, j) {
                &&& !states(new_line, key, true)
                &&& states(new_line, key, false) <==> states(old_line, key, true)
                &&& states(old_line, key, true) ==> stated_value(new_line, key, false)
                    == stated_value(old_line, key, true)
            } else if in_chosen_group(lines, prefix, target, j) {
                &&& !states(new_line, key, false)
                &&& states(new_line, key, true) <==> states(old_line, key, false)
                &&& states(old_line, key, false) ==> stated_value(new_line, key, true)
                    == stated_value(old_line, key, false)
            } else {
                new_line == old_line
            }
        }),
{
    let m = first_match(lines, prefix, target, 0);
    lemma_first_match_stops(lines, prefix, target, 0);
    if in_active_group(lines, prefix, j) {
        let stated = if pair_at(lines, prefix, j, true) {
            base_url_key(prefix)
        } else {
            auth_token_key(prefix)
        };
        assert(states(lines[j], stated, true));
        lemma_commented(lines[j], key);
    } else if in_chosen_group(lines, prefix, target, j) {
        let stated = if j == m {
            base_url_key(prefix)
        } else {
            auth_token_key(prefix)
        };
        assert(states(lines[j], stated, false));
        lemma_uncommented(lines[j], stated, key);
    }
}

/// The groups after a switch start where they did before, and hold the
/// values that they held; the chosen group is active and every other group
/// is disabled.
proof fn lemma_switched_pair(lines: Seq<Seq<char>>, prefix: Seq<char>, target: GroupView, p: int)
    ensures
        ({
            let out = switched(lines, prefix, target);
            let m = first_match(lines, prefix, target, 0);
            &&& pair_at(out, prefix, p, true) <==> p == m && m < lines.len()
            &&& pair_at(out, prefix, p, false) <==> starts_group(lines, prefix, p) && p != m
            &&& starts_group(lines, prefix, p) ==> {
                &&& group_at(out, prefix, p).base_url == group_at(lines, prefix, p).base_url
                &&& group_at(out, prefix, p).auth_token == group_at(lines, prefix, p).auth_token
            }
        }),
{
    let out = switched(lines, prefix, target);
    let m = first_match(lines, prefix, target, 0);
    lemma_first_match_stops(lines, prefix, target, 0);
    if 0 <= p && p + 1 < lines.len() {
        lemma_switched_line(lines, prefix, target, p, base_url_key(prefix));
        lemma_switched_line(lines, prefix, target, p + 1, auth_token_key(prefix));
        lemma_statements_differ(lines[p], prefix);
        lemma_statements_differ(lines[p + 1], prefix);
        if p > 0 {
            lemma_statements_differ(lines[p - 1], prefix);
        }
        if p + 2 < lines.len() {
            lemma_statements_differ(lines[p + 2], prefix);
        }
    }
}

/// Whether the group of place `index` in the list is disabled, and no
/// disabled group before it in the list holds the same two values.
pub open spec fn first_of_its_values(groups: Seq<GroupView>, index: int) -> bool {
    &&& 0 <= index < groups.len()
    &&& !groups[index].active
    &&& forall|k: int|
        0 <= k < index ==> {
            ||| (#[trigger] groups[k]).active
            ||| groups[k].base_url != groups[index].base_url
            ||| groups[k].auth_token != groups[index].auth_token
        }
}

/// A switch to a disabled group that is the first of its values chooses that
/// very group.
pub proof fn lemma_switch_chooses_target(lines: Seq<Seq<char>>, prefix: Seq<char>, index: int)
    requires
        first_of_its_values(groups_of(lines, prefix), index),
    ensures
        first_match(lines, prefix, groups_of(lines, prefix)[index], 0) == group_starts(
            lines,
            prefix,
            lines.len() as int,
        )[index],
        pair_at(
            lines,
            prefix,
            group_starts(lines, prefix, lines.len() as int)[index],
            false,
        ),
{
    let starts = group_starts(lines, prefix, lines.len() as int);
    let groups = groups_of(lines, prefix);
    let target = groups[index];
    let start = starts[index];
    lemma_group_starts(lines, prefix, lines.len() as int);
    assert(starts_group(lines, prefix, start));
    assert(target == group_at(lines, prefix, start));
    assert forall|q: int| 0 <= q < start implies !matches_at(lines, prefix, q, target) by {
        if matches_at(lines, prefix, q, target) {
            lemma_statements_differ(lines[q], prefix);
            assert(starts.contains(q));
            let k = choose|k: int| 0 <= k < starts.len() && starts[k] == q;
            if k > index {
                assert(starts[index] + 2 <= starts[k]);
            }
            assert(groups[k] == group_at(lines, prefix, q));
        }
    }
    lemma_first_match(lines, prefix, target, 0, start);
}

/// A switch to a disabled group of the list toggles whole groups and nothing
/// else. Every line of an active group becomes `#` and the line without the
/// white space at its ends; the two lines of the chosen group lose the `#`
/// that they begin with, and the white space at their ends; every other line
/// stays as it is. This holds where the chosen group is the first of its
/// values: of several disabled groups with the same two values, a switch
/// makes the first active.
pub proof fn law_switch_toggles_groups(lines: Seq<Seq<char>>, prefix: Seq<char>, index: int)
    requires
        first_of_its_values(groups_of(lines, prefix), index),
    ensures
        ({
            let start = group_starts(lines, prefix, lines.len() as int)[index];
            let out = switched(lines, prefix, groups_of(lines, prefix)[index]);
            &&& out.len() == lines.len()
            &&& 0 <= start && start + 1 < lines.len()
            &&& trimmed(lines[start]) == seq!['#'] + out[start]
            &&& trimmed(lines[start + 1]) == seq!['#'] + out[start + 1]
            &&& forall|j: int|
                0 <= j < lines.len() ==> #[trigger] out[j] == if in_active_group(lines, prefix, j) {
                    seq!['#'] + trimmed(lines[j])
                } else if j == start || j == start + 1 {
                    trimmed(lines[j]).drop_first()
                } else {
                    lines[j]
                }
        }),
{
    let start = group_starts(lines, prefix, lines.len() as int)[index];
    let out = switched(lines, prefix, groups_of(lines, prefix)[index]);
    lemma_switch_chooses_target(lines, prefix, index);
    lemma_statements_differ(lines[start], prefix);
    lemma_statements_differ(lines[start + 1], prefix);
    if start > 0 && pair_at(lines, prefix, start - 1, true) {
        lemma_groups_do_not_overlap(lines, prefix, start - 1);
    }
    assert(out[start] == uncommented(lines[start]));
    assert(out[start + 1] == uncommented(lines[start + 1]));
    let first = statement_prefix(base_url_key(prefix), false);
    let second = statement_prefix(auth_token_key(prefix), false);
    assert(trimmed(lines[start]).subrange(0, first.len() as int)[0] == first[0]);
    assert(trimmed(lines[start + 1]).subrange(0, second.len() as int)[0] == second[0]);
    assert(trimmed(lines[start]) == seq!['#'] + out[start]);
    assert(trimmed(lines[start + 1]) == seq!['#'] + out[start + 1]);
}

/// The lines of the text that a switch gives are the lines that were joined:
/// plain lines stay plain under a switch.
pub proof fn law_lines_after_switch(lines: Seq<Seq<char>>, prefix: Seq<char>, target: GroupView)
    requires
        plain_lines(lines),
    ensures
        plain_lines(switched(lines, prefix, target)),
        lines_of(joined(switched(lines, prefix, target))) == switched(lines, prefix, target),
{
    reveal_strlit("export ");
    let out = switched(lines, prefix, target);
    let m = first_match(lines, prefix, target, 0);
    lemma_first_match_stops(lines, prefix, target, 0);
    assert forall|j: int| 0 <= j < out.len() implies plain_line(#[trigger] out[j]) && (out[j].len()
        > 0 || out[j] == lines[j]) by {
        let text = trimmed(lines[j]);
        lemma_trimmed_plain(lines[j]);
        if in_active_group(lines, prefix, j) {
            let stated = if pair_at(lines, prefix, j, true) {
                base_url_key(prefix)
            } else {
                auth_token_key(prefix)
            };
            assert(states(lines[j], stated, true));
            assert(out[j].last() == text.last());
        } else if in_chosen_group(lines, prefix, target, j) {
            let stated = if j == m {
                base_url_key(prefix)
            } else {
                auth_token_key(prefix)
            };
            assert(states(lines[j], stated, false));
            assert(out[j].last() == text.last());
        }
    }
    law_lines_of_joined(out);
}

/// Two files of as many lines in which groups start at the same places have
/// the same places in `group_starts`.
proof fn lemma_same_starts(a: Seq<Seq<char>>, b: Seq<Seq<char>>, prefix: Seq<char>, n: int)
    requires
        forall|p: int| starts_group(a, prefix, p) <==> starts_group(b, prefix, p),
    ensures
        group_starts(a, prefix, n) == group_starts(b, prefix, n),
    decreases n,
{
    if n > 0 {
        lemma_same_starts(a, b, prefix, n - 1);
    }
}

/// After a switch to a disabled group that is the first of its values, the
/// file lists the groups that it listed before, in the same order and with
/// the same values; the chosen group is active and every other group is
/// disabled.
pub proof fn law_switch_leaves_one_active(lines: Seq<Seq<char>>, prefix: Seq<char>, index: int)
    requires
        first_of_its_values(groups_of(lines, prefix), index),
    ensures
        ({
            let before = groups_of(lines, prefix);
            let after = groups_of(switched(lines, prefix, before[index]), prefix);
            &&& after.len() == before.len()
            &&& forall|k: int|
                0 <= k < before.len() ==> {
                    &&& (#[trigger] after[k]).base_url == before[k].base_url
                    &&& after[k].auth_token == before[k].auth_token
                    &&& after[k].active == (k == index)
                }
        }),
{
    let before = groups_of(lines, prefix);
    let target = before[index];
    let out = switched(lines, prefix, target);
    let starts = group_starts(lines, prefix, lines.len() as int);
    lemma_switch_chooses_target(lines, prefix, index);
    lemma_group_starts(lines, prefix, lines.len() as int);
    assert forall|p: int| starts_group(lines, prefix, p) <==> starts_group(out, prefix, p) by {
        lemma_switched_pair(lines, prefix, target, p);
    }
    lemma_same_starts(lines, out, prefix, lines.len() as int);
    let after = groups_of(out, prefix);
    assert forall|k: int| 0 <= k < before.len() implies {
        &&& (#[trigger] after[k]).base_url == before[k].base_url
        &&& after[k].auth_token == before[k].auth_token
        &&& after[k].active == (k == index)
    } by {
        lemma_switched_pair(lines, prefix, target, starts[k]);
        if k < index {
            assert(starts[k] + 2 <= starts[index]);
        } else if index < k {
            assert(starts[index] + 2 <= starts[k]);
        }
    }
}

/// The place of the first disabled group among `lines` that holds the values
/// of `target`, or the number of lines.
fn find_match(lines: &Vec<Vec<char>>, family: &Family, target: &ConfigGroup) -> (m: usize)
    requires
        family.wf(),
    ensures
        m == first_match(lines_view(lines@), family.prefix@, target@, 0),
        m <= lines.len(),
        m < lines.len() ==> matches_at(lines_view(lines@), family.prefix@, m as int, target@),
{
    let mut p: usize = 0;
    while p < lines.len()
        invariant
            p <= lines.len(),
            family.wf(),
            forall|q: int|
                0 <= q < p ==> !matches_at(lines_view(lines@), family.prefix@, q, target@),
        decreases lines.len() - p,
    {
        match family.group_at_place(lines, p) {
            Some(group) => {
                if !group.active && group.base_url == target.base_url && group.auth_token
                    == target.auth_token {
                    proof {
                        lemma_first_match(
                            lines_view(lines@),
                            family.prefix@,
                            target@,
                            0,
                            p as int,
                        );
                    }
                    return p;
                }
                proof {
                    lemma_statements_differ(lines_view(lines@)[p as int], family.prefix@);
                }
            },
            None => {},
        }
        p += 1;
    }
    proof {
        lemma_first_match(lines_view(lines@), family.prefix@, target@, 0, p as int);
    }
    p
}

/// `#`, then `line` without the white space at its ends.
fn comment_out(line: &Vec<char>) -> (r: Vec<char>)
    ensures
        r@ == commented(line@),
{
    let mut out: Vec<char> = Vec::new();
    out.push('#');
    append_chars(&mut out, &trim(line));
    out
}

/// `line` without the white space at its ends and without its first
/// character.
fn comment_in(line: &Vec<char>) -> (r: Vec<char>)
    requires
        trimmed(line@).len() > 0,
    ensures
        r@ == uncommented(line@),
{
    let text = trim(line);
    slice_of(&text, 1, text.len())
}

/// The lines after a switch to `target`.
fn switch_lines(lines: &Vec<Vec<char>>, family: &Family, target: &ConfigGroup) -> (out: Vec<
    Vec<char>,
>)
    requires
        family.wf(),
    ensures
        lines_view(out@) == switched(lines_view(lines@), family.prefix@, target@),
{
    let m = find_match(lines, family, target);
    let mut out: Vec<Vec<char>> = Vec::new();
    let mut j: usize = 0;
    while j < lines.len()
        invariant
            j <= lines.len(),
            family.wf(),
            m == first_match(lines_view(lines@), family.prefix@, target@, 0),
            m <= lines.len(),
            m < lines.len() ==> matches_at(lines_view(lines@), family.prefix@, m as int, target@),
            lines_view(out@) == switched(lines_view(lines@), family.prefix@, target@).take(
                j as int,
            ),
        decreases lines.len() - j,
    {
        let here = family.pair_kind(lines, j);
        let before = if j > 0 {
            family.pair_kind(lines, j - 1)
        } else {
            None
        };
        let line = if matches!(here, Some(true)) || matches!(before, Some(true)) {
            comment_out(&lines[j])
        } else if m < lines.len() && (j == m || j == m + 1) {
            comment_in(&lines[j])
        } else {
            lines[j].clone()
        };
        proof {
            let all = lines_view(lines@);
            let after = switched(all, family.prefix@, target@);
            assert(line@ == switched_line(all, family.prefix@, target@, j as int));
            assert(lines_view(out@.push(line)) == lines_view(out@).push(line@));
            assert(after.take(j + 1) == after.take(j as int).push(after[j as int]));
        }
        out.push(line);
        j += 1;
    }
    proof {
        let after = switched(lines_view(lines@), family.prefix@, target@);
        assert(after.take(j as int) == after);
    }
    out
}

/// Switches the family `prefix` to the group `groups[index]` in the text of
/// an export file.
///
/// An index that names no group of the list is refused. Where the group is
/// active already, the text comes back as it is. Otherwise the two lines of
/// every active group of the family are disabled, the two lines of the first
/// disabled group that holds the values of `groups[index]` are made active,
/// every other line stays as it is, and the lines are joined by line feeds.
pub fn switch_group(content: &str, prefix: &str, groups: &Vec<ConfigGroup>, index: usize) -> (r:
    Result<String, SwitchError>)
    ensures
        match r {
            Err(error) => index >= groups.len() && error == SwitchError::InvalidIndex,
            Ok(updated) => index < groups.len() && updated@ == if groups[index as int].active {
                content@
            } else {
                joined(switched(lines_of(content@), prefix@, groups[index as int]@))
            },
        },
{
    if index >= groups.len() {
        return Err(SwitchError::InvalidIndex);
    }
    let target = &groups[index];
    if target.active {
        return Ok(content.to_owned());
    }
    let text = chars_of(content);
    let lines = split_lines(&text);
    let family = Family::new(prefix);
    let out = switch_lines(&lines, &family, target);
    Ok(string_of(&join_lines(&out)))
}

/// Switches the family `CS` to the group of the given index in the list of
/// its groups. The result is `None` where that group is active already, and
/// otherwise the new text of the file with the values of the group.
pub fn switch_cs_config(content: &str, index: usize) -> (r: Result<Option<CsSwitch>, SwitchError>)
    ensures
        ({
            let lines = lines_of(content@);
            let groups = groups_of(lines, "CS"@);
            match r {
                Err(error) => index >= groups.len() && error == SwitchError::InvalidIndex,
                Ok(None) => index < groups.len() && groups[index as int].active,
                Ok(Some(switch)) => {
                    &&& index < groups.len()
                    &&& !groups[index as int].active
                    &&& switch.content@ == joined(switched(lines, "CS"@, groups[index as int]))
                    &&& switch.config.cs_base_url@ == groups[index as int].base_url
                    &&& switch.config.cs_auth_token@ == groups[index as int].auth_token
                },
            }
        }),
{
    let groups = list_groups(content, "CS");
    if index >= groups.len() {
        return Err(SwitchError::InvalidIndex);
    }
    if groups[index].active {
        return Ok(None);
    }
    match switch_group(content, "CS", &groups, index) {
        Ok(updated) => Ok(
            Some(
                CsSwitch {
                    content: updated,
                    config: EnvConfig {
                        cs_base_url: groups[index].base_url.clone(),
                        cs_auth_token: groups[index].auth_token.clone(),
                    },
                },
            ),
        ),
        Err(e) => Err(e),
    }
}

/// Switches the family `ANTHROPIC` to the group of the given index in the
/// list of its groups. The result is `None` where that group is active
/// already, and otherwise the new text of the file.
pub fn switch_anthropic_config(content: &str, index: usize) -> (r: Result<
    Option<String>,
    SwitchError,
>)
    ensures
        ({
            let lines = lines_of(content@);
            let groups = groups_of(lines, "ANTHROPIC"@);
            match r {
                Err(error) => index >= groups.len() && error == SwitchError::InvalidIndex,
                Ok(None) => index < groups.len() && groups[index as int].active,
                Ok(Some(updated)) => {
                    &&& index < groups.len()
                    &&& !groups[index as int].active
                    &&& updated@ == joined(switched(lines, "ANTHROPIC"@, groups[index as int]))
                },
            }
        }),
{
    let groups = list_groups(content, "ANTHROPIC");
    if index >= groups.len() {
        return Err(SwitchError::InvalidIndex);
    }
    if groups[index].active {
        return Ok(None);
    }
    match switch_group(content, "ANTHROPIC", &groups, index) {
        Ok(updated) => Ok(Some(updated)),
        Err(e) => Err(e),
    }
}

} // verus!
