//! Groups: two adjacent statements of one family of variables, the first on
//! its base URL and the second on its auth token, both active or both
//! disabled.

use crate::statement::{
    stated_value, statement_prefix, statement_prefix_chars, states, value_after,
};
use crate::text::{
    append_chars, chars_of, lines_of, lines_view, split_lines, starts_with, string_of, trim,
};
use vstd::prelude::*;

verus! {

/// One group of a family: its two values, and whether its lines are active.
#[derive(Clone, Debug)]
pub struct ConfigGroup {
    pub base_url: String,
    pub auth_token: String,
    pub active: bool,
}

/// What a group holds.
pub struct GroupView {
    pub base_url: Seq<char>,
    pub auth_token: Seq<char>,
    pub active: bool,
}

impl View for ConfigGroup {
    type V = GroupView;

    open spec fn view(&self) -> GroupView {
        GroupView { base_url: self.base_url@, auth_token: self.auth_token@, active: self.active }
    }
}

/// One group of the family `CS`.
#[derive(Clone, Debug)]
pub struct CsConfigGroup {
    pub base_url: String,
    pub auth_token: String,
    pub active: bool,
}

impl View for CsConfigGroup {
    type V = GroupView;

    open spec fn view(&self) -> GroupView {
        GroupView { base_url: self.base_url@, auth_token: self.auth_token@, active: self.active }
    }
}

/// One group of the family `ANTHROPIC`.
#[derive(Clone, Debug)]
pub struct AnthropicConfigGroup {
    pub base_url: String,
    pub auth_token: String,
    pub active: bool,
}

impl View for AnthropicConfigGroup {
    type V = GroupView;

    open spec fn view(&self) -> GroupView {
        GroupView { base_url: self.base_url@, auth_token: self.auth_token@, active: self.active }
    }
}

/// What a vector of groups holds, each group by its view.
pub open spec fn groups_view<G: View>(groups: Seq<G>) -> Seq<G::V> {
    groups.map_values(|g: G| g@)
}

/// The key of a family's base URL: `PREFIX_BASE_URL`.
pub open spec fn base_url_key(prefix: Seq<char>) -> Seq<char> {
    prefix + "_BASE_URL"@
}

/// The key of a family's auth token: `PREFIX_AUTH_TOKEN`.
pub open spec fn auth_token_key(prefix: Seq<char>) -> Seq<char> {
    prefix + "_AUTH_TOKEN"@
}

/// Whether the lines at `p` and `p + 1` are the two statements of a group,
/// both active or both disabled as `active` says.
pub open spec fn pair_at(lines: Seq<Seq<char>>, prefix: Seq<char>, p: int, active: bool) -> bool {
    &&& 0 <= p
    &&& p + 1 < lines.len()
    &&& states(lines[p], base_url_key(prefix), active)
    &&& states(lines[p + 1], auth_token_key(prefix), active)
}

/// Whether a group starts at line `p`.
pub open spec fn starts_group(lines: Seq<Seq<char>>, prefix: Seq<char>, p: int) -> bool {
    pair_at(lines, prefix, p, true) || pair_at(lines, prefix, p, false)
}

/// The group that starts at line `p`.
pub open spec fn group_at(lines: Seq<Seq<char>>, prefix: Seq<char>, p: int) -> GroupView {
    let active = pair_at(lines, prefix, p, true);
    GroupView {
        base_url: stated_value(lines[p], base_url_key(prefix), active),
        auth_token: stated_value(lines[p + 1], auth_token_key(prefix), active),
        active,
    }
}

/// The places below `n` at which a group starts, in rising order.
pub open spec fn group_starts(lines: Seq<Seq<char>>, prefix: Seq<char>, n: int) -> Seq<int>
    decreases n,
{
    if n <= 0 {
        Seq::empty()
    } else if starts_group(lines, prefix, n - 1) {
        group_starts(lines, prefix, n - 1).push(n - 1)
    } else {
        group_starts(lines, prefix, n - 1)
    }
}

/// The groups that start at the places `starts`.
pub open spec fn groups_from(lines: Seq<Seq<char>>, prefix: Seq<char>, starts: Seq<int>) -> Seq<
    GroupView,
> {
    starts.map_values(|p: int| group_at(lines, prefix, p))
}

/// The groups of a family in a file of these lines: one for each place at
/// which a group starts, in the order of the lines.
pub open spec fn groups_of(lines: Seq<Seq<char>>, prefix: Seq<char>) -> Seq<GroupView> {
    groups_from(lines, prefix, group_starts(lines, prefix, lines.len() as int))
}

/// No line is a statement on the base URL and one on the auth token at once,
/// nor an active statement and a disabled one.
pub proof fn lemma_statements_differ(line: Seq<char>, prefix: Seq<char>)
    ensures
        forall|a: bool, b: bool|
            !(states(line, base_url_key(prefix), a) && states(line, auth_token_key(prefix), b)),
        forall|k1: Seq<char>, k2: Seq<char>| !(states(line, k1, true) && states(line, k2, false)),
{
    reveal_strlit("export ");
    reveal_strlit("_BASE_URL");
    reveal_strlit("_AUTH_TOKEN");
    let t = crate::text::trimmed(line);
    let n = prefix.len() as int;
    assert forall|a: bool, b: bool|
        !(states(line, base_url_key(prefix), a) && states(line, auth_token_key(prefix), b)) by {
        let u = statement_prefix(base_url_key(prefix), a);
        let v = statement_prefix(auth_token_key(prefix), b);
        if u.is_prefix_of(t) && v.is_prefix_of(t) {
            assert(t[0] == u[0] && t[0] == v[0]);
            assert(a == b);
            let k = if a {
                7 + n + 1
            } else {
                8 + n + 1
            };
            assert(u[k] == 'B');
            assert(v[k] == 'A');
            assert(t[k] == u[k] && t[k] == v[k]);
        }
    }
    assert forall|k1: Seq<char>, k2: Seq<char>|
        !(states(line, k1, true) && states(line, k2, false)) by {
        let u = statement_prefix(k1, true);
        let v = statement_prefix(k2, false);
        if u.is_prefix_of(t) && v.is_prefix_of(t) {
            assert(t[0] == u[0] && t[0] == v[0]);
        }
    }
}

/// Groups do not overlap: where one starts, none starts at the next line.
pub proof fn lemma_groups_do_not_overlap(lines: Seq<Seq<char>>, prefix: Seq<char>, p: int)
    requires
        starts_group(lines, prefix, p),
    ensures
        !starts_group(lines, prefix, p + 1),
{
    lemma_statements_differ(lines[p + 1], prefix);
}

/// What `group_starts` holds: places below `n` at which a group starts, each
/// at least two lines after the one before it, and none left out.
pub proof fn lemma_group_starts(lines: Seq<Seq<char>>, prefix: Seq<char>, n: int)
    ensures
        forall|k: int|
            0 <= k < group_starts(lines, prefix, n).len() ==> {
                &&& 0 <= #[trigger] group_starts(lines, prefix, n)[k] < n
                &&& starts_group(lines, prefix, group_starts(lines, prefix, n)[k])
            },
        forall|k: int, m: int|
            0 <= k < m < group_starts(lines, prefix, n).len() ==> #[trigger] group_starts(
                lines,
                prefix,
                n,
            )[k] + 2 <= #[trigger] group_starts(lines, prefix, n)[m],
        forall|p: int|
            0 <= p < n && starts_group(lines, prefix, p) ==> #[trigger] group_starts(
                lines,
                prefix,
                n,
            ).contains(p),
    decreases n,
{
    if n > 0 {
        lemma_group_starts(lines, prefix, n - 1);
        let before = group_starts(lines, prefix, n - 1);
        let all = group_starts(lines, prefix, n);
        if starts_group(lines, prefix, n - 1) {
            assert(all == before.push(n - 1));
            assert forall|k: int| 0 <= k < before.len() implies #[trigger] before[k] + 2 <= n
                - 1 by {
                if before[k] == n - 2 {
                    lemma_groups_do_not_overlap(lines, prefix, n - 2);
                }
            }
            assert forall|p: int| 0 <= p < n && starts_group(lines, prefix, p) implies all.contains(
                p,
            ) by {
                if p < n - 1 {
                    assert(before.contains(p));
                    let k = choose|k: int| 0 <= k < before.len() && before[k] == p;
                    assert(all[k] == p);
                } else {
                    assert(all[before.len() as int] == p);
                }
            }
        }
    }
}

/// The groups come in the order of their lines, no line belongs to two of
/// them, and no pair of statements is left out: the places at which the
/// listed groups start rise by at least two from one to the next, a group
/// starts at each of them, and they hold every place at which one starts.
pub proof fn law_groups_in_file_order(lines: Seq<Seq<char>>, prefix: Seq<char>)
    ensures
        ({
            let starts = group_starts(lines, prefix, lines.len() as int);
            let groups = groups_of(lines, prefix);
            &&& groups.len() == starts.len()
            &&& forall|k: int|
                0 <= k < starts.len() ==> {
                    &&& starts_group(lines, prefix, #[trigger] starts[k])
                    &&& groups[k] == group_at(lines, prefix, starts[k])
                }
            &&& forall|k: int, m: int|
                0 <= k < m < starts.len() ==> #[trigger] starts[k] + 2 <= #[trigger] starts[m]
            &&& forall|p: int| starts_group(lines, prefix, p) ==> #[trigger] starts.contains(p)
        }),
{
    lemma_group_starts(lines, prefix, lines.len() as int);
}

/// An active pair directly followed by a disabled pair gives two groups, the
/// active one and then the disabled one, with no group between them.
pub proof fn law_adjacent_pairs_both_listed(lines: Seq<Seq<char>>, prefix: Seq<char>, p: int)
    requires
        pair_at(lines, prefix, p, true),
        pair_at(lines, prefix, p + 2, false),
    ensures
        exists|k: int|
            {
                &&& 0 <= k
                &&& k + 1 < groups_of(lines, prefix).len()
                &&& #[trigger] groups_of(lines, prefix)[k] == group_at(lines, prefix, p)
                &&& groups_of(lines, prefix)[k].active
                &&& groups_of(lines, prefix)[k + 1] == group_at(lines, prefix, p + 2)
                &&& !groups_of(lines, prefix)[k + 1].active
            },
{
    let starts = group_starts(lines, prefix, lines.len() as int);
    lemma_group_starts(lines, prefix, lines.len() as int);
    lemma_statements_differ(lines[p + 2], prefix);
    assert(starts.contains(p));
    assert(starts.contains(p + 2));
    let k = choose|k: int| 0 <= k < starts.len() && starts[k] == p;
    let m = choose|m: int| 0 <= m < starts.len() && starts[m] == p + 2;
    if m <= k {
        if m < k {
            assert(starts[m] + 2 <= starts[k]);
        }
    } else if m > k + 1 {
        assert(starts[k] + 2 <= starts[k + 1]);
        assert(starts[k + 1] + 2 <= starts[m]);
    }
    assert(m == k + 1);
    assert(groups_of(lines, prefix)[k] == group_at(lines, prefix, p));
}

/// A family of variables, with what the four kinds of its statements begin
/// with.
pub(crate) struct Family {
    pub(crate) prefix: Vec<char>,
    pub(crate) base_url_on: Vec<char>,
    pub(crate) auth_token_on: Vec<char>,
    pub(crate) base_url_off: Vec<char>,
    pub(crate) auth_token_off: Vec<char>,
}

impl Family {
    /// The four beginnings are those of the family's prefix.
    pub(crate) open spec fn wf(&self) -> bool {
        &&& self.base_url_on@ == statement_prefix(base_url_key(self.prefix@), true)
        &&& self.auth_token_on@ == statement_prefix(auth_token_key(self.prefix@), true)
        &&& self.base_url_off@ == statement_prefix(base_url_key(self.prefix@), false)
        &&& self.auth_token_off@ == statement_prefix(auth_token_key(self.prefix@), false)
    }

    /// The family of the variables `PREFIX_BASE_URL` and `PREFIX_AUTH_TOKEN`.
    pub(crate) fn new(prefix: &str) -> (family: Family)
        ensures
            family.wf(),
            family.prefix@ == prefix@,
    {
        let mut base_url = chars_of(prefix);
        let mut auth_token = chars_of(prefix);
        append_chars(&mut base_url, &chars_of("_BASE_URL"));
        append_chars(&mut auth_token, &chars_of("_AUTH_TOKEN"));
        let prefix = chars_of(prefix);
        Family {
            base_url_on: statement_prefix_chars(&base_url, true),
            auth_token_on: statement_prefix_chars(&auth_token, true),
            base_url_off: statement_prefix_chars(&base_url, false),
            auth_token_off: statement_prefix_chars(&auth_token, false),
            prefix,
        }
    }

    /// Whether a group starts at line `p`, and if so whether it is active.
    pub(crate) fn pair_kind(&self, lines: &Vec<Vec<char>>, p: usize) -> (r: Option<bool>)
        requires
            self.wf(),
            p < lines.len(),
        ensures
            match r {
                Some(active) => pair_at(lines_view(lines@), self.prefix@, p as int, active)
                    && active == pair_at(lines_view(lines@), self.prefix@, p as int, true),
                None => !starts_group(lines_view(lines@), self.prefix@, p as int),
            },
    {
        if p + 1 >= lines.len() {
            return None;
        }
        let first = trim(&lines[p]);
        let second = trim(&lines[p + 1]);
        if starts_with(&first, &self.base_url_on) && starts_with(&second, &self.auth_token_on) {
            Some(true)
        } else if starts_with(&first, &self.base_url_off) && starts_with(
            &second,
            &self.auth_token_off,
        ) {
            Some(false)
        } else {
            None
        }
    }

    /// The group that starts at line `p`, if one does.
    pub(crate) fn group_at_place(&self, lines: &Vec<Vec<char>>, p: usize) -> (r: Option<
        ConfigGroup,
    >)
        requires
            self.wf(),
            p < lines.len(),
        ensures
            match r {
                Some(g) => starts_group(lines_view(lines@), self.prefix@, p as int) && g@
                    == group_at(lines_view(lines@), self.prefix@, p as int),
                None => !starts_group(lines_view(lines@), self.prefix@, p as int),
            },
    {
        match self.pair_kind(lines, p) {
            Some(active) => {
                let first = trim(&lines[p]);
                let second = trim(&lines[p + 1]);
                let (skip_first, skip_second) = if active {
                    (self.base_url_on.len(), self.auth_token_on.len())
                } else {
                    (self.base_url_off.len(), self.auth_token_off.len())
                };
                let base_url = value_after(&first, skip_first);
                let auth_token = value_after(&second, skip_second);
                Some(
                    ConfigGroup {
                        base_url: string_of(&base_url),
                        auth_token: string_of(&auth_token),
                        active,
                    },
                )
            },
            None => None,
        }
    }
}

/// The groups of the family `prefix` among `lines`, in the order of the
/// lines.
pub(crate) fn groups_in_lines(lines: &Vec<Vec<char>>, family: &Family) -> (groups: Vec<
    ConfigGroup,
>)
    requires
        family.wf(),
    ensures
        groups_view(groups@) == groups_of(lines_view(lines@), family.prefix@),
{
    let mut groups: Vec<ConfigGroup> = Vec::new();
    let mut i: usize = 0;
    while i < lines.len()
        invariant
            i <= lines.len(),
            family.wf(),
            groups_view(groups@) == groups_from(
                lines_view(lines@),
                family.prefix@,
                group_starts(lines_view(lines@), family.prefix@, i as int),
            ),
        decreases lines.len() - i,
    {
        let ghost all = lines_view(lines@);
        let ghost before = group_starts(all, family.prefix@, i as int);
        match family.group_at_place(lines, i) {
            Some(group) => {
                proof {
                    lemma_groups_do_not_overlap(all, family.prefix@, i as int);
                    assert(group_starts(all, family.prefix@, i + 1) == before.push(i as int));
                    assert(group_starts(all, family.prefix@, i + 2) == before.push(i as int));
                    assert(groups_view(groups@.push(group)) == groups_view(groups@).push(group@));
                    assert(groups_from(all, family.prefix@, before.push(i as int)) == groups_from(
                        all,
                        family.prefix@,
                        before,
                    ).push(group@));
                }
                groups.push(group);
                i += 2;
            },
            None => {
                proof {
                    assert(group_starts(all, family.prefix@, i + 1) == before);
                }
                i += 1;
            },
        }
    }
    groups
}

/// Lists the groups of the family `prefix` in the text of an export file.
///
/// A group is two adjacent lines, `export PREFIX_BASE_URL=...` followed by
/// `export PREFIX_AUTH_TOKEN=...`, or the same two lines each disabled by a
/// leading `#`. The groups come in the order of their lines. Two statements
/// that are not adjacent, or of which only one is disabled, make no group.
pub fn list_groups(content: &str, prefix: &str) -> (groups: Vec<ConfigGroup>)
    ensures
        groups_view(groups@) == groups_of(lines_of(content@), prefix@),
{
    let text = chars_of(content);
    let lines = split_lines(&text);
    let family = Family::new(prefix);
    groups_in_lines(&lines, &family)
}

/// Lists the groups of the family `CS`.
pub fn read_cs_config_groups(content: &str) -> (groups: Vec<CsConfigGroup>)
    ensures
        groups_view(groups@) == groups_of(lines_of(content@), "CS"@),
{
    let listed = list_groups(content, "CS");
    let mut groups: Vec<CsConfigGroup> = Vec::new();
    let mut i: usize = 0;
    while i < listed.len()
        invariant
            i <= listed.len(),
            groups_view(groups@) == groups_view(listed@).take(i as int),
        decreases listed.len() - i,
    {
        let group = CsConfigGroup {
            base_url: listed[i].base_url.clone(),
            auth_token: listed[i].auth_token.clone(),
            active: listed[i].active,
        };
        proof {
            assert(groups_view(groups@.push(group)) == groups_view(groups@).push(group@));
            assert(groups_view(listed@).take(i + 1) == groups_view(listed@).take(i as int).push(
                listed@[i as int]@,
            ));
        }
        groups.push(group);
        i += 1;
    }
    proof {
        assert(groups_view(listed@).take(i as int) == groups_view(listed@));
    }
    groups
}

/// Lists the groups of the family `ANTHROPIC`.
pub fn read_anthropic_config_groups(content: &str) -> (groups: Vec<AnthropicConfigGroup>)
    ensures
        groups_view(groups@) == groups_of(lines_of(content@), "ANTHROPIC"@),
{
    let listed = list_groups(content, "ANTHROPIC");
    let mut groups: Vec<AnthropicConfigGroup> = Vec::new();
    let mut i: usize = 0;
    while i < listed.len()
        invariant
            i <= listed.len(),
            groups_view(groups@) == groups_view(listed@).take(i as int),
        decreases listed.len() - i,
    {
        let group = AnthropicConfigGroup {
            base_url: listed[i].base_url.clone(),
            auth_token: listed[i].auth_token.clone(),
            active: listed[i].active,
        };
        proof {
            assert(groups_view(groups@.push(group)) == groups_view(groups@).push(group@));
            assert(groups_view(listed@).take(i + 1) == groups_view(listed@).take(i as int).push(
                listed@[i as int]@,
            ));
        }
        groups.push(group);
        i += 1;
    }
    proof {
        assert(groups_view(listed@).take(i as int) == groups_view(listed@));
    }
    groups
}

} // verus!
