//! Editing of shell files that assign environment variables with `export`
//! statements, some of them disabled by a leading `#`, and of the settings
//! that a few tools keep of the same values.

pub mod codex;
pub mod document;
pub mod env_file;
pub mod groups;
pub mod settings;
pub mod statement;
pub mod switch;
pub mod text;

pub use codex::{set_codex_base_url, CodexConfig};
pub use document::Node;
pub use env_file::{
    parse_env_value, read_anthropic_config, read_env_config, save_anthropic_config,
    save_env_config, update_env_value, AnthropicConfig, EnvConfig,
};
pub use groups::{
    list_groups, read_anthropic_config_groups, read_cs_config_groups, AnthropicConfigGroup,
    ConfigGroup, CsConfigGroup,
};
pub use settings::{
    apply_codex_to_droid, apply_codex_to_opencode, read_codex_config, read_droid_config,
    read_opencode_config, set_codex_api_key, update_claude_settings,
};
pub use switch::{switch_anthropic_config, switch_cs_config, switch_group, CsSwitch, SwitchError};
