use shell_secrets::groups::{list_groups, read_anthropic_config_groups, read_cs_config_groups};
use shell_secrets::switch::{
    switch_anthropic_config, switch_cs_config, switch_group, SwitchError,
};

fn two_pairs() -> String {
    [
        "export CS_BASE_URL=\"https://a\"",
        "export CS_AUTH_TOKEN=\"t1\"",
        "#export CS_BASE_URL=\"https://b\"",
        "#export CS_AUTH_TOKEN=\"t2\"",
    ]
    .join("\n")
}

#[test]
fn an_active_pair_and_a_disabled_pair_are_two_groups() {
    let groups = list_groups(&two_pairs(), "CS");
    assert_eq!(groups.len(), 2);
    assert_eq!(groups[0].base_url, "https://a");
    assert_eq!(groups[0].auth_token, "t1");
    assert!(groups[0].active);
    assert_eq!(groups[1].base_url, "https://b");
    assert_eq!(groups[1].auth_token, "t2");
    assert!(!groups[1].active);
}

#[test]
fn switching_to_the_disabled_pair_toggles_both_pairs() {
    let content = two_pairs();
    let groups = list_groups(&content, "CS");
    let switched = switch_group(&content, "CS", &groups, 1).unwrap();
    let expected = [
        "#export CS_BASE_URL=\"https://a\"",
        "#export CS_AUTH_TOKEN=\"t1\"",
        "export CS_BASE_URL=\"https://b\"",
        "export CS_AUTH_TOKEN=\"t2\"",
    ]
    .join("\n");
    assert_eq!(switched, expected);
    let after = list_groups(&switched, "CS");
    assert_eq!(after.len(), 2);
    assert!(!after[0].active);
    assert!(after[1].active);
}

#[test]
fn switching_to_the_active_group_changes_nothing() {
    let content = format!("{}\n", two_pairs());
    let groups = list_groups(&content, "CS");
    assert_eq!(switch_group(&content, "CS", &groups, 0).unwrap(), content);
    assert!(matches!(switch_cs_config(&content, 0), Ok(None)));
}

#[test]
fn an_index_past_the_list_is_refused() {
    let content = two_pairs();
    let groups = list_groups(&content, "CS");
    assert!(matches!(
        switch_group(&content, "CS", &groups, 2),
        Err(SwitchError::InvalidIndex)
    ));
    assert!(matches!(
        switch_cs_config(&content, 7),
        Err(SwitchError::InvalidIndex)
    ));
    assert!(matches!(
        switch_anthropic_config(&content, 0),
        Err(SwitchError::InvalidIndex)
    ));
    assert_eq!(SwitchError::InvalidIndex.message(), "Invalid config index");
}

#[test]
fn lines_outside_the_groups_stay_as_they_are() {
    let content = "  # my secrets  \n\
                   export OTHER=\"x\"\n\
                   \texport CS_BASE_URL=\"https://a\"  \n\
                   export CS_AUTH_TOKEN=\"t1\"\n\
                   \n\
                   #export CS_BASE_URL=\"https://b\"\n\
                   #export CS_AUTH_TOKEN=\"t2\"\n\
                   #export CS_BASE_URL=\"https://c\"\n\
                   #export CS_AUTH_TOKEN=\"t3\"\n\
                   export ANTHROPIC_BASE_URL=\"https://z\"\n";
    let switch = switch_cs_config(content, 2).unwrap().unwrap();
    assert_eq!(
        switch.content,
        "  # my secrets  \n\
         export OTHER=\"x\"\n\
         #export CS_BASE_URL=\"https://a\"\n\
         #export CS_AUTH_TOKEN=\"t1\"\n\
         \n\
         #export CS_BASE_URL=\"https://b\"\n\
         #export CS_AUTH_TOKEN=\"t2\"\n\
         export CS_BASE_URL=\"https://c\"\n\
         export CS_AUTH_TOKEN=\"t3\"\n\
         export ANTHROPIC_BASE_URL=\"https://z\""
    );
    assert_eq!(switch.config.cs_base_url, "https://c");
    assert_eq!(switch.config.cs_auth_token, "t3");
}

#[test]
fn statements_that_are_not_adjacent_make_no_group() {
    let content = "export CS_BASE_URL=\"https://a\"\n\nexport CS_AUTH_TOKEN=\"t1\"\n";
    assert_eq!(list_groups(content, "CS").len(), 0);
}

#[test]
fn a_pair_of_which_one_line_is_disabled_makes_no_group() {
    let content = "export CS_BASE_URL=\"https://a\"\n#export CS_AUTH_TOKEN=\"t1\"\n";
    assert_eq!(list_groups(content, "CS").len(), 0);
    let content = "#export CS_BASE_URL=\"https://a\"\nexport CS_AUTH_TOKEN=\"t1\"\n";
    assert_eq!(list_groups(content, "CS").len(), 0);
}

#[test]
fn of_two_disabled_groups_with_the_same_values_the_first_is_made_active() {
    let content = "export CS_BASE_URL=\"https://a\"\n\
                   export CS_AUTH_TOKEN=\"t1\"\n\
                   #export CS_BASE_URL=\"https://b\"\n\
                   #export CS_AUTH_TOKEN=\"t2\"\n\
                   #export CS_BASE_URL=\"https://b\"\n\
                   #export CS_AUTH_TOKEN=\"t2\"";
    let groups = list_groups(content, "CS");
    assert_eq!(groups.len(), 3);
    let switched = switch_group(content, "CS", &groups, 2).unwrap();
    assert_eq!(
        switched,
        "#export CS_BASE_URL=\"https://a\"\n\
         #export CS_AUTH_TOKEN=\"t1\"\n\
         export CS_BASE_URL=\"https://b\"\n\
         export CS_AUTH_TOKEN=\"t2\"\n\
         #export CS_BASE_URL=\"https://b\"\n\
         #export CS_AUTH_TOKEN=\"t2\""
    );
}

#[test]
fn the_two_families_are_listed_apart() {
    let content = "export CS_BASE_URL=\"https://a\"\n\
                   export CS_AUTH_TOKEN=\"t1\"\n\
                   #export ANTHROPIC_BASE_URL=\"https://n\"\n\
                   #export ANTHROPIC_AUTH_TOKEN=\"k\"\n";
    let cs = read_cs_config_groups(content);
    assert_eq!(cs.len(), 1);
    assert_eq!(cs[0].base_url, "https://a");
    assert!(cs[0].active);
    let anthropic = read_anthropic_config_groups(content);
    assert_eq!(anthropic.len(), 1);
    assert_eq!(anthropic[0].base_url, "https://n");
    assert_eq!(anthropic[0].auth_token, "k");
    assert!(!anthropic[0].active);
    let switched = switch_anthropic_config(content, 0).unwrap().unwrap();
    assert_eq!(
        switched,
        "export CS_BASE_URL=\"https://a\"\n\
         export CS_AUTH_TOKEN=\"t1\"\n\
         export ANTHROPIC_BASE_URL=\"https://n\"\n\
         export ANTHROPIC_AUTH_TOKEN=\"k\""
    );
}

#[test]
fn groups_come_in_the_order_of_their_lines() {
    let content = "#export CS_BASE_URL=\"https://1\"\n\
                   #export CS_AUTH_TOKEN=\"t1\"\n\
                   # a note between the groups\n\
                   export CS_BASE_URL=\"https://2\"\n\
                   export CS_AUTH_TOKEN=\"t2\"\n\
                   #export CS_BASE_URL=\"https://3\"\n\
                   #export CS_AUTH_TOKEN=\"t3\"\n\
                   export CS_BASE_URL=\"orphan\"\n\
                   \n\
                   #export CS_BASE_URL=\"https://4\"\n\
                   #export CS_AUTH_TOKEN=\"t4\"";
    let groups = list_groups(content, "CS");
    let listed: Vec<(&str, &str, bool)> = groups
        .iter()
        .map(|g| (g.base_url.as_str(), g.auth_token.as_str(), g.active))
        .collect();
    assert_eq!(
        listed,
        vec![
            ("https://1", "t1", false),
            ("https://2", "t2", true),
            ("https://3", "t3", false),
            ("https://4", "t4", false),
        ]
    );
}

#[test]
fn a_switch_leaves_the_chosen_group_as_the_only_active_one() {
    let content = "export CS_BASE_URL=\"https://1\"\n\
                   export CS_AUTH_TOKEN=\"t1\"\n\
                   #export CS_BASE_URL=\"https://2\"\n\
                   #export CS_AUTH_TOKEN=\"t2\"\n\
                   export CS_BASE_URL=\"https://3\"\n\
                   export CS_AUTH_TOKEN=\"t3\"\n\
                   #export CS_BASE_URL=\"https://4\"\n\
                   #export CS_AUTH_TOKEN=\"t4\"";
    let before = list_groups(content, "CS");
    for index in [1usize, 3] {
        let switched = switch_group(content, "CS", &before, index).unwrap();
        let after = list_groups(&switched, "CS");
        assert_eq!(after.len(), before.len());
        for (place, group) in after.iter().enumerate() {
            assert_eq!(group.base_url, before[place].base_url);
            assert_eq!(group.auth_token, before[place].auth_token);
            assert_eq!(group.active, place == index);
        }
    }
}

#[test]
fn a_statement_that_belongs_to_no_group_is_left_alone_by_a_switch() {
    let content = "export CS_BASE_URL=\"orphan\"\n\
                   \n\
                   export CS_AUTH_TOKEN=\"orphan\"\n\
                   #export CS_AUTH_TOKEN=\"t\"\n\
                   #export CS_BASE_URL=\"https://b\"\n\
                   #export CS_AUTH_TOKEN=\"t\"";
    let groups = list_groups(content, "CS");
    assert_eq!(groups.len(), 1);
    assert_eq!(
        switch_group(content, "CS", &groups, 0).unwrap(),
        "export CS_BASE_URL=\"orphan\"\n\
         \n\
         export CS_AUTH_TOKEN=\"orphan\"\n\
         #export CS_AUTH_TOKEN=\"t\"\n\
         export CS_BASE_URL=\"https://b\"\n\
         export CS_AUTH_TOKEN=\"t\""
    );
}

#[test]
fn a_group_that_the_file_does_not_hold_only_disables_the_active_ones() {
    let content = two_pairs();
    let wanted = vec![shell_secrets::ConfigGroup {
        base_url: "https://elsewhere".to_string(),
        auth_token: "t".to_string(),
        active: false,
    }];
    assert_eq!(
        switch_group(&content, "CS", &wanted, 0).unwrap(),
        "#export CS_BASE_URL=\"https://a\"\n\
         #export CS_AUTH_TOKEN=\"t1\"\n\
         #export CS_BASE_URL=\"https://b\"\n\
         #export CS_AUTH_TOKEN=\"t2\""
    );
}

fn toggled_line_by_line(content: &str, base_url: &str, auth_token: &str) -> String {
    let mut lines: Vec<String> = content.lines().map(|line| line.to_string()).collect();
    for line in lines.iter_mut() {
        let trimmed = line.trim().to_string();
        if trimmed.starts_with("export CS_BASE_URL=") || trimmed.starts_with("export CS_AUTH_TOKEN=")
        {
            *line = format!("#{}", trimmed);
        } else if let Some(rest) = trimmed.strip_prefix("#export CS_BASE_URL=") {
            if rest.trim_matches('"') == base_url {
                *line = trimmed[1..].to_string();
            }
        } else if let Some(rest) = trimmed.strip_prefix("#export CS_AUTH_TOKEN=") {
            if rest.trim_matches('"') == auth_token {
                *line = trimmed[1..].to_string();
            }
        }
    }
    lines.join("\n")
}

#[test]
fn in_a_file_of_whole_groups_with_values_of_their_own_a_switch_toggles_line_by_line() {
    let mut seed: u32 = 12345;
    let mut next = |bound: u32| {
        seed = seed.wrapping_mul(1664525).wrapping_add(1013904223);
        (seed >> 16) % bound
    };
    for round in 0..200 {
        let mut lines: Vec<String> = Vec::new();
        let blocks = 1 + next(7);
        for block in 0..blocks {
            let indent = ["", "  ", "\t"][next(3) as usize];
            match next(4) {
                0 => {
                    lines.push(format!("{}export CS_BASE_URL=\"https://h{}\"", indent, block));
                    lines.push(format!("export CS_AUTH_TOKEN=\"t{}\" ", block));
                }
                1 | 2 => {
                    lines.push(format!("{}#export CS_BASE_URL=\"https://h{}\"", indent, block));
                    lines.push(format!("#export CS_AUTH_TOKEN=\"t{}\"", block));
                }
                _ => lines.push(format!("{}# note {} export OTHER=\"x\"", indent, block)),
            }
        }
        let content = lines.join("\n");
        let groups = list_groups(&content, "CS");
        for index in 0..groups.len() {
            let switched = switch_group(&content, "CS", &groups, index).unwrap();
            if groups[index].active {
                assert_eq!(switched, content, "round {}", round);
            } else {
                let expected =
                    toggled_line_by_line(&content, &groups[index].base_url, &groups[index].auth_token);
                assert_eq!(switched, expected, "round {}", round);
            }
        }
    }
}
