//! The settings of the tools: where each keeps its base URL and its key in
//! its document, how they are read, and how they are set.
//!
//! A value that is missing, or is no text, reads as the empty string. A
//! value is set only where the table that holds it is there already; the
//! one table that is made where it is missing is `env`, for the two values
//! of the family `CS`.

use crate::codex::CodexConfig;
use crate::document::{
    at_item, at_member, law_with_member, lemma_view, lemma_with_item_twice,
    lemma_with_member_twice, Node, Tree,
};
use crate::env_file::EnvConfig;
use vstd::prelude::*;

verus! {

/// What a value that may be missing holds.
pub open spec fn tree_of_option(value: Option<&Node>) -> Option<Tree> {
    match value {
        Some(node) => Some(node@),
        None => None,
    }
}

/// The value of `key` in a value that may be missing.
pub open spec fn member_of(value: Option<Tree>, key: Seq<char>) -> Option<Tree> {
    match value {
        Some(tree) => tree.member(key),
        None => None,
    }
}

/// The item at place `i` of a value that may be missing.
pub open spec fn item_of(value: Option<Tree>, i: int) -> Option<Tree> {
    match value {
        Some(tree) => tree.item(i),
        None => None,
    }
}

/// The characters of a value that may be missing: those of a text, and none
/// for anything else.
pub open spec fn text_or_empty(value: Option<Tree>) -> Seq<char> {
    match value {
        Some(Tree::Text(text)) => text,
        _ => Seq::empty(),
    }
}

/// `tree` with the base URL and the key set at `url_key` and `key_key`.
pub open spec fn with_pair(
    tree: Tree,
    url_key: Seq<char>,
    url: Seq<char>,
    key_key: Seq<char>,
    key: Seq<char>,
) -> Tree {
    tree.with_member(url_key, Tree::Text(url)).with_member(key_key, Tree::Text(key))
}

/// The base URL of Codex: `model_providers.custom.base_url` in its
/// configuration.
pub open spec fn codex_base_url(config: Tree) -> Seq<char> {
    text_or_empty(
        member_of(
            member_of(config.member("model_providers"@), "custom"@),
            "base_url"@,
        ),
    )
}

/// The key of Codex: `OPENAI_API_KEY` in its file of credentials.
pub open spec fn codex_api_key(auth: Tree) -> Seq<char> {
    text_or_empty(auth.member("OPENAI_API_KEY"@))
}

/// The first custom model of Droid: `customModels[0]` in its settings.
pub open spec fn droid_model(doc: Tree) -> Option<Tree> {
    item_of(doc.member("customModels"@), 0)
}

/// The options of OpenCode: `provider.openai.options` in its configuration.
pub open spec fn opencode_options(doc: Tree) -> Option<Tree> {
    member_of(member_of(doc.member("provider"@), "openai"@), "options"@)
}

/// The settings of Droid with the base URL and the key of its first custom
/// model set, where it has one.
pub open spec fn droid_applied(doc: Tree, url: Seq<char>, key: Seq<char>) -> Tree {
    at_member(
        doc,
        "customModels"@,
        |models: Tree|
            at_item(
                models,
                0,
                |model: Tree| with_pair(model, "baseUrl"@, url, "apiKey"@, key),
            ),
    )
}

/// The configuration of OpenCode with the base URL and the key of its
/// options set, where it has them.
pub open spec fn opencode_applied(doc: Tree, url: Seq<char>, key: Seq<char>) -> Tree {
    at_member(
        doc,
        "provider"@,
        |provider: Tree|
            at_member(
                provider,
                "openai"@,
                |openai: Tree|
                    at_member(
                        openai,
                        "options"@,
                        |options: Tree| with_pair(options, "baseURL"@, url, "apiKey"@, key),
                    ),
            ),
    )
}

/// Settings with the two values of the family `CS` set in their table
/// `env`, which is made where it is missing.
pub open spec fn with_env_values(doc: Tree, url: Seq<char>, token: Seq<char>) -> Tree {
    match doc.member("env"@) {
        Some(env) => doc.with_member(
            "env"@,
            with_pair(env, "CS_BASE_URL"@, url, "CS_AUTH_TOKEN"@, token),
        ),
        None => doc.with_member(
            "env"@,
            with_pair(Tree::Table(Seq::empty()), "CS_BASE_URL"@, url, "CS_AUTH_TOKEN"@, token),
        ),
    }
}

/// A table in which the base URL and the key were set holds them, at two
/// keys that differ.
pub proof fn lemma_pair_is_held(
    tree: Tree,
    url_key: Seq<char>,
    url: Seq<char>,
    key_key: Seq<char>,
    key: Seq<char>,
)
    requires
        tree is Table,
        url_key != key_key,
    ensures
        with_pair(tree, url_key, url, key_key, key) is Table,
        with_pair(tree, url_key, url, key_key, key).member(url_key) == Some(Tree::Text(url)),
        with_pair(tree, url_key, url, key_key, key).member(key_key) == Some(Tree::Text(key)),
{
    let first = tree.with_member(url_key, Tree::Text(url));
    law_with_member(tree, url_key, Tree::Text(url), key_key);
    law_with_member(first, key_key, Tree::Text(key), url_key);
}

/// What is set for Droid is what is read: where the first custom model is a
/// table, it holds the base URL and the key after they were set.
pub proof fn law_droid_holds_what_was_set(doc: Tree, url: Seq<char>, key: Seq<char>)
    requires
        droid_model(doc) matches Some(model) && model is Table,
    ensures
        text_or_empty(member_of(droid_model(droid_applied(doc, url, key)), "baseUrl"@)) == url,
        text_or_empty(member_of(droid_model(droid_applied(doc, url, key)), "apiKey"@)) == key,
{
    reveal_strlit("baseUrl");
    reveal_strlit("apiKey");
    let models = doc.member("customModels"@)->Some_0;
    let model = models.item(0)->Some_0;
    let model_set = with_pair(model, "baseUrl"@, url, "apiKey"@, key);
    assert("baseUrl"@ != "apiKey"@) by {
        assert("baseUrl"@[0] == 'b');
        assert("apiKey"@[0] == 'a');
    }
    lemma_pair_is_held(model, "baseUrl"@, url, "apiKey"@, key);
    law_with_member(doc, "customModels"@, models.with_item(0, model_set), "customModels"@);
}

/// What is set for OpenCode is what is read: where its options are a table,
/// they hold the base URL and the key after they were set.
pub proof fn law_opencode_holds_what_was_set(doc: Tree, url: Seq<char>, key: Seq<char>)
    requires
        opencode_options(doc) matches Some(options) && options is Table,
    ensures
        text_or_empty(member_of(opencode_options(opencode_applied(doc, url, key)), "baseURL"@))
            == url,
        text_or_empty(member_of(opencode_options(opencode_applied(doc, url, key)), "apiKey"@))
            == key,
{
    reveal_strlit("baseURL");
    reveal_strlit("apiKey");
    let provider = doc.member("provider"@)->Some_0;
    let openai = provider.member("openai"@)->Some_0;
    let options = openai.member("options"@)->Some_0;
    let options_set = with_pair(options, "baseURL"@, url, "apiKey"@, key);
    let openai_set = openai.with_member("options"@, options_set);
    let provider_set = provider.with_member("openai"@, openai_set);
    assert("baseURL"@ != "apiKey"@) by {
        assert("baseURL"@[0] == 'b');
        assert("apiKey"@[0] == 'a');
    }
    lemma_pair_is_held(options, "baseURL"@, url, "apiKey"@, key);
    law_with_member(openai, "options"@, options_set, "options"@);
    law_with_member(provider, "openai"@, openai_set, "openai"@);
    law_with_member(doc, "provider"@, provider_set, "provider"@);
}

/// The value of `key` in a value that may be missing.
fn get_in<'a>(value: Option<&'a Node>, key: &str) -> (r: Option<&'a Node>)
    ensures
        tree_of_option(r) == member_of(tree_of_option(value), key@),
{
    match value {
        Some(node) => node.get(key),
        None => None,
    }
}

/// The item at place `i` of a value that may be missing.
fn item_in<'a>(value: Option<&'a Node>, i: usize) -> (r: Option<&'a Node>)
    ensures
        tree_of_option(r) == item_of(tree_of_option(value), i as int),
{
    match value {
        Some(node) => node.item(i),
        None => None,
    }
}

/// The text of a value that may be missing, or the empty string.
fn text_in(value: Option<&Node>) -> (r: String)
    ensures
        r@ == text_or_empty(tree_of_option(value)),
{
    match value {
        Some(node) => match node.as_text() {
            Some(text) => text.clone(),
            None => String::new(),
        },
        None => String::new(),
    }
}

/// A text of a document.
fn text_node(text: &String) -> (r: Node)
    ensures
        r@ == Tree::Text(text@),
{
    Node::Text(text.clone())
}

/// Sets the base URL and the key of `config` at `url_key` and `key_key`.
fn set_pair(node: Node, url_key: &str, key_key: &str, config: &CodexConfig) -> (r: Node)
    ensures
        r@ == with_pair(node@, url_key@, config.base_url@, key_key@, config.api_key@),
{
    node.set(url_key, text_node(&config.base_url)).set(key_key, text_node(&config.api_key))
}

/// Reads the base URL of Codex from its configuration and its key from its
/// file of credentials.
pub fn read_codex_config(config: &Node, auth: &Node) -> (r: CodexConfig)
    ensures
        r.base_url@ == codex_base_url(config@),
        r.api_key@ == codex_api_key(auth@),
{
    let custom = get_in(config.get("model_providers"), "custom");
    CodexConfig {
        base_url: text_in(get_in(custom, "base_url")),
        api_key: text_in(auth.get("OPENAI_API_KEY")),
    }
}

/// Sets the key of Codex in its file of credentials: `OPENAI_API_KEY`, where
/// the document is a table.
pub fn set_codex_api_key(auth: Node, api_key: &str) -> (r: Node)
    ensures
        r@ == auth@.with_member("OPENAI_API_KEY"@, Tree::Text(api_key@)),
{
    auth.set("OPENAI_API_KEY", Node::Text(api_key.to_owned()))
}

/// Reads the base URL and the key of the first custom model of Droid.
pub fn read_droid_config(doc: &Node) -> (r: CodexConfig)
    ensures
        r.base_url@ == text_or_empty(member_of(droid_model(doc@), "baseUrl"@)),
        r.api_key@ == text_or_empty(member_of(droid_model(doc@), "apiKey"@)),
{
    let model = item_in(doc.get("customModels"), 0);
    CodexConfig {
        base_url: text_in(get_in(model, "baseUrl")),
        api_key: text_in(get_in(model, "apiKey")),
    }
}

/// Reads the base URL and the key of the options of OpenCode.
pub fn read_opencode_config(doc: &Node) -> (r: CodexConfig)
    ensures
        r.base_url@ == text_or_empty(member_of(opencode_options(doc@), "baseURL"@)),
        r.api_key@ == text_or_empty(member_of(opencode_options(doc@), "apiKey"@)),
{
    let options = get_in(get_in(doc.get("provider"), "openai"), "options");
    CodexConfig {
        base_url: text_in(get_in(options, "baseURL")),
        api_key: text_in(get_in(options, "apiKey")),
    }
}

/// Sets the base URL and the key of the first custom model of Droid. Where
/// `customModels` is missing or is no list, or the list is empty, the
/// settings stay as they are.
pub fn apply_codex_to_droid(doc: Node, config: &CodexConfig) -> (r: Node)
    ensures
        r@ == droid_applied(doc@, config.base_url@, config.api_key@),
{
    let (doc_rest, models) = doc.take("customModels");
    match models {
        None => doc_rest,
        Some(models) => {
            let (models_rest, model) = models.take_item(0);
            let models = match model {
                None => models_rest,
                Some(model) => {
                    let model_new = set_pair(model, "baseUrl", "apiKey", config);
                    proof {
                        lemma_with_item_twice(models@, 0, Tree::Null, model_new@);
                    }
                    models_rest.set_item(0, model_new)
                },
            };
            proof {
                lemma_with_member_twice(doc@, "customModels"@, Tree::Null, models@);
            }
            doc_rest.set("customModels", models)
        },
    }
}

/// Sets the base URL and the key of the options of OpenCode. Where
/// `provider`, `openai` in it or `options` in that is missing, the
/// configuration stays as it is.
pub fn apply_codex_to_opencode(doc: Node, config: &CodexConfig) -> (r: Node)
    ensures
        r@ == opencode_applied(doc@, config.base_url@, config.api_key@),
{
    let (doc_rest, provider) = doc.take("provider");
    match provider {
        None => doc_rest,
        Some(provider) => {
            let (provider_rest, openai) = provider.take("openai");
            let provider_new = match openai {
                None => provider_rest,
                Some(openai) => {
                    let (openai_rest, options) = openai.take("options");
                    let openai_new = match options {
                        None => openai_rest,
                        Some(options) => {
                            let options_new = set_pair(options, "baseURL", "apiKey", config);
                            proof {
                                lemma_with_member_twice(
                                    openai@,
                                    "options"@,
                                    Tree::Null,
                                    options_new@,
                                );
                            }
                            openai_rest.set("options", options_new)
                        },
                    };
                    proof {
                        lemma_with_member_twice(provider@, "openai"@, Tree::Null, openai_new@);
                    }
                    provider_rest.set("openai", openai_new)
                },
            };
            proof {
                lemma_with_member_twice(doc@, "provider"@, Tree::Null, provider_new@);
            }
            doc_rest.set("provider", provider_new)
        },
    }
}

/// Sets the two values of the family `CS` in the settings that keep them
/// under `env`: in `env` where the settings have it, and in a new table
/// `env` where they do not. Settings that are no table stay as they are,
/// and so does an `env` that is no table.
pub fn update_claude_settings(doc: Node, config: &EnvConfig) -> (r: Node)
    ensures
        r@ == with_env_values(doc@, config.cs_base_url@, config.cs_auth_token@),
{
    let (doc_rest, env) = doc.take("env");
    match env {
        Some(env) => {
            let env_new = env.set("CS_BASE_URL", text_node(&config.cs_base_url)).set(
                "CS_AUTH_TOKEN",
                text_node(&config.cs_auth_token),
            );
            proof {
                lemma_with_member_twice(doc@, "env"@, Tree::Null, env_new@);
            }
            doc_rest.set("env", env_new)
        },
        None => {
            let empty = Node::Table(Vec::new());
            proof {
                lemma_view(empty);
                assert(empty@->Table_0 =~= Seq::empty());
            }
            let env_new = empty.set("CS_BASE_URL", text_node(&config.cs_base_url)).set(
                "CS_AUTH_TOKEN",
                text_node(&config.cs_auth_token),
            );
            doc_rest.set("env", env_new)
        },
    }
}

} // verus!
