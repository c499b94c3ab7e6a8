use amc::config::{default_llm_prompt, Config};

#[test]
fn test_default_config() {
    let config = Config::default();
    assert_eq!(config.delimiter, "---");
    assert_eq!(config.extensions, vec!["rs"]);
}

#[test]
fn default_config_prompt_and_folders() {
    let config = Config::default();
    assert!(config.llm_prompt.contains("concatenated source code"));
    assert_eq!(config.llm_prompt, default_llm_prompt());
    assert!(config.llm_prompt.starts_with("This is"));
    assert!(config.llm_prompt.ends_with("follow below:"));
    assert!(config.excluded_folders.is_empty());
}
