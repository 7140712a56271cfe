use xneo::config::IgnoreError;
use xneo::Config;

#[test]
fn test_config_default() {
    let config = Config::default();
    assert_eq!(config.max_entries, 1000);
    assert!(config.enable_fuzzy_matching);
    assert!(!config.ignored_patterns.is_empty());
}

#[test]
fn test_ignored_patterns() {
    let config = Config::default();

    // Should ignore common build/cache directories
    assert!(config.is_ignored("/project/node_modules/package"));
    assert!(config.is_ignored("/project/.git/hooks"));
    assert!(config.is_ignored("/rust/project/target/debug"));

    // Should not ignore regular directories
    assert!(!config.is_ignored("/home/user/projects"));
    assert!(!config.is_ignored("/usr/local/bin"));
}

#[test]
fn default_settings_in_full() {
    let config = Config::default();
    assert_eq!(config.ignored_patterns.len(), 14);
    assert_eq!(config.ignored_patterns[0], "**/node_modules");
    assert_eq!(config.ignored_patterns[13], "**/*.tmp");
    assert_eq!(config.update_threshold_hours, 168);
    assert!(!config.show_stats_on_query);
    assert!(!config.auto_clean_on_startup);
    assert_eq!(config.fzf_options, "--height=40% --reverse --border");
}

#[test]
fn ignore_filter_matches_by_segment_not_by_substring() {
    let config = Config::default();
    assert!(config.is_ignored("/a/target"));
    assert!(config.is_ignored("/a/build/out"));
    assert!(config.is_ignored("/var/run/app.log"));
    assert!(config.is_ignored("/x/y.tmp"));
    assert!(!config.is_ignored("/a/targets"));
    assert!(!config.is_ignored("/a/rebuild/out"));
    assert!(!config.is_ignored("/a/distance"));
    assert!(!config.is_ignored("/var/logs"));
}

#[test]
fn compile_ignores_follows_the_patterns() {
    let mut config = Config::default();
    config.ignored_patterns = vec!["**/secret".to_string(), "**/secret/**".to_string()];
    assert_eq!(config.compile_ignores(), Ok(()));
    assert!(config.is_ignored("/home/me/secret"));
    assert!(config.is_ignored("/home/me/secret/notes"));
    assert!(!config.is_ignored("/project/node_modules/package"));
}

#[test]
fn compile_ignores_with_no_pattern_ignores_nothing() {
    let mut config = Config::default();
    config.ignored_patterns = Vec::new();
    assert_eq!(config.compile_ignores(), Ok(()));
    assert!(!config.is_ignored("/project/node_modules/package"));
    assert!(!config.is_ignored(""));
}

#[test]
fn compile_ignores_names_the_first_invalid_pattern() {
    let mut config = Config::default();
    config.ignored_patterns =
        vec!["**/ok".to_string(), "a[".to_string(), "{".to_string()];
    assert_eq!(
        config.compile_ignores(),
        Err(IgnoreError::InvalidPattern { index: 1 })
    );
    // the filter stays as it was
    assert!(config.is_ignored("/project/node_modules/package"));
    assert!(!config.is_ignored("/x/ok"));
}

#[test]
fn clone_keeps_settings_and_filter() {
    let mut config = Config::default();
    config.max_entries = 7;
    let copy = config.clone();
    assert_eq!(copy.max_entries, 7);
    assert_eq!(copy.ignored_patterns, config.ignored_patterns);
    assert_eq!(copy.fzf_options, config.fzf_options);
    assert!(copy.is_ignored("/project/.git/hooks"));
    assert!(!copy.is_ignored("/usr/local/bin"));
}

#[test]
fn get_knows_fzf_options_only() {
    let config = Config::default();
    assert_eq!(
        config.get("fzf_options"),
        Some("--height=40% --reverse --border".to_string())
    );
    assert_eq!(config.get("max_entries"), None);
    assert_eq!(config.get(""), None);
}

#[test]
fn compile_ignores_fails_when_no_matcher_can_be_built() {
    let mut config = Config::default();
    config.ignored_patterns =
        (0..2000).map(|i| format!("{}{}", "?".repeat(2000), i)).collect();
    assert_eq!(config.compile_ignores(), Err(IgnoreError::Unbuildable));
    // the filter stays as it was
    assert!(config.is_ignored("/project/node_modules/package"));
}
