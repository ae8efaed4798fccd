use shell_secrets::env_file::{
    parse_env_value, read_anthropic_config, read_env_config, save_anthropic_config,
    save_env_config, update_env_value, AnthropicConfig, EnvConfig,
};

#[test]
fn reads_the_value_of_the_first_assignment() {
    let content = "# secrets\nexport CS_BASE_URL=\"https://a\"\nexport CS_BASE_URL=\"https://b\"\n";
    assert_eq!(parse_env_value(content, "CS_BASE_URL"), "https://a");
}

#[test]
fn reads_what_an_assignment_holds() {
    for value in ["", "v", "https://host:8080/path?x=1&y=2", "a b", "it's", "a\"b", " padded "] {
        let content = format!("export OTHER=\"o\"\n  export K=\"{}\"  \nexport LAST=\"l\"", value);
        assert_eq!(parse_env_value(&content, "K"), value, "{:?}", value);
    }
}

#[test]
fn a_missing_key_reads_as_empty() {
    assert_eq!(parse_env_value("export A=\"1\"\n", "B"), "");
    assert_eq!(parse_env_value("", "B"), "");
    assert_eq!(parse_env_value("export AB=\"1\"\n", "A"), "");
    assert_eq!(parse_env_value("export A =\"1\"\n", "A"), "");
}

#[test]
fn a_disabled_line_is_not_read() {
    let content = "#export A=\"off\"\n# export A=\"off\"\nexport A=\"on\"\n";
    assert_eq!(parse_env_value(content, "A"), "on");
    assert_eq!(parse_env_value("#export A=\"off\"\n", "A"), "");
}

#[test]
fn quotes_are_taken_off_the_value_however_many() {
    assert_eq!(parse_env_value("export A=plain", "A"), "plain");
    assert_eq!(parse_env_value("export A=\"\"twice\"\"", "A"), "twice");
    assert_eq!(parse_env_value("export A=\"open", "A"), "open");
    assert_eq!(parse_env_value("export A=\"in\"side\"", "A"), "in\"side");
    assert_eq!(parse_env_value("export A=\"\"", "A"), "");
    assert_eq!(parse_env_value("export A=", "A"), "");
}

#[test]
fn white_space_round_the_line_does_not_count() {
    assert_eq!(parse_env_value("\t  export A=\"1\"  \r\n", "A"), "1");
    assert_eq!(parse_env_value("export A=\"1\" # note", "A"), "1\" # note");
}

#[test]
fn update_replaces_the_line_in_place() {
    let content = "export A=\"1\"\nexport B=\"2\"\nexport C=\"3\"\n";
    assert_eq!(
        update_env_value(content, "B", "two"),
        "export A=\"1\"\nexport B=\"two\"\nexport C=\"3\""
    );
}

#[test]
fn update_replaces_only_the_first_assignment() {
    let content = "  export A=\"1\"  \n#export A=\"0\"\nexport A=\"2\"";
    assert_eq!(
        update_env_value(content, "A", "x"),
        "export A=\"x\"\n#export A=\"0\"\nexport A=\"2\""
    );
}

#[test]
fn update_keeps_the_number_of_lines_where_the_key_is_assigned() {
    let content = "# head\nexport A=\"1\"\n\nexport B=\"2\"";
    let updated = update_env_value(content, "A", "new");
    assert_eq!(updated.lines().count(), content.lines().count());
    let before: Vec<&str> = content.lines().collect();
    let after: Vec<&str> = updated.lines().collect();
    assert_eq!(after[1], "export A=\"new\"");
    assert_eq!(after[0], before[0]);
    assert_eq!(after[2], before[2]);
    assert_eq!(after[3], before[3]);
}

#[test]
fn update_appends_where_the_key_is_missing() {
    assert_eq!(
        update_env_value("export A=\"1\"\n", "B", "2"),
        "export A=\"1\"\nexport B=\"2\""
    );
    assert_eq!(update_env_value("", "B", "2"), "export B=\"2\"");
    let content = "# head\n#export B=\"off\"\nexport A=\"1\"";
    let updated = update_env_value(content, "B", "2");
    assert_eq!(updated.lines().count(), content.lines().count() + 1);
    assert_eq!(updated.lines().last(), Some("export B=\"2\""));
    assert!(updated.starts_with(content));
}

#[test]
fn update_always_quotes_the_value() {
    assert_eq!(update_env_value("export A=1", "A", "2"), "export A=\"2\"");
    assert_eq!(update_env_value("export A=1", "A", ""), "export A=\"\"");
    assert_eq!(update_env_value("export A=1", "A", "\"q\""), "export A=\"\"q\"\"");
}

#[test]
fn what_update_writes_is_what_parse_reads() {
    for value in ["", "v", "https://a/b", "with space"] {
        let updated = update_env_value("export A=\"old\"\nexport B=\"b\"", "A", value);
        assert_eq!(parse_env_value(&updated, "A"), value);
        assert_eq!(parse_env_value(&updated, "B"), "b");
    }
}

#[test]
fn the_cs_values_are_read_and_saved() {
    let content = "export CS_BASE_URL=\"https://a\"\nexport CS_AUTH_TOKEN=\"t\"\n";
    let config = read_env_config(content);
    assert_eq!(config.cs_base_url, "https://a");
    assert_eq!(config.cs_auth_token, "t");
    let saved = save_env_config(
        "export CS_AUTH_TOKEN=\"old\"\n# end\n",
        &EnvConfig { cs_base_url: "https://n".to_string(), cs_auth_token: "k".to_string() },
    );
    assert_eq!(saved, "export CS_AUTH_TOKEN=\"k\"\n# end\nexport CS_BASE_URL=\"https://n\"");
    let empty = read_env_config("");
    assert_eq!(empty.cs_base_url, "");
    assert_eq!(empty.cs_auth_token, "");
}

#[test]
fn the_anthropic_values_are_read_and_saved() {
    let content = "export ANTHROPIC_AUTH_TOKEN=\"t\"\nexport ANTHROPIC_BASE_URL=\"https://a\"";
    let config = read_anthropic_config(content);
    assert_eq!(config.base_url, "https://a");
    assert_eq!(config.auth_token, "t");
    let saved = save_anthropic_config(
        "",
        &AnthropicConfig { base_url: "https://n".to_string(), auth_token: "k".to_string() },
    );
    assert_eq!(saved, "export ANTHROPIC_BASE_URL=\"https://n\"\nexport ANTHROPIC_AUTH_TOKEN=\"k\"");
}
