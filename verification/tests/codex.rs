use shell_secrets::codex::set_codex_base_url;

#[test]
fn the_base_url_of_the_custom_provider_is_set() {
    let content = "model = \"gpt\"\n\
                   base_url = \"top\"\n\
                   \n\
                   [model_providers.other]\n\
                   base_url = \"https://other\"\n\
                   \n\
                   [model_providers.custom]\n\
                   name = \"custom\"\n\
                   base_url = \"https://old\"\n\
                   wire_api = \"chat\"\n\
                   \n\
                   [profiles.x]\n\
                   base_url = \"https://profile\"\n";
    assert_eq!(
        set_codex_base_url(content, "https://new"),
        "model = \"gpt\"\n\
         base_url = \"top\"\n\
         \n\
         [model_providers.other]\n\
         base_url = \"https://other\"\n\
         \n\
         [model_providers.custom]\n\
         name = \"custom\"\n\
         base_url = \"https://new\"\n\
         wire_api = \"chat\"\n\
         \n\
         [profiles.x]\n\
         base_url = \"https://profile\""
    );
}

#[test]
fn every_line_of_the_table_that_begins_with_base_url_is_set() {
    let content = "  [model_providers.custom]  \n  base_url=1\nbase_url_extra = 2\n# base_url\n";
    assert_eq!(
        set_codex_base_url(content, "u"),
        "  [model_providers.custom]  \nbase_url = \"u\"\nbase_url = \"u\"\n# base_url"
    );
}

#[test]
fn a_text_without_the_table_stays_as_it_is() {
    let content = "base_url = \"a\"\n[model_providers.customer]\nbase_url = \"b\"";
    assert_eq!(set_codex_base_url(content, "u"), content);
    assert_eq!(set_codex_base_url("", "u"), "");
}

#[test]
fn the_table_ends_at_the_next_line_that_begins_with_a_bracket() {
    let content = "[model_providers.custom]\n[[array]]\nbase_url = \"a\"\n\
                   [model_providers.custom]\nbase_url = \"b\"";
    assert_eq!(
        set_codex_base_url(content, "u"),
        "[model_providers.custom]\n[[array]]\nbase_url = \"a\"\n\
         [model_providers.custom]\nbase_url = \"u\""
    );
}
