use notehub::config::{Config, ConfigError, ImportSummary, RepoError};

fn config_with(repos: &[&str], active: Option<&str>) -> Config {
    Config {
        github_token: None,
        repos: repos.iter().map(|r| r.to_string()).collect(),
        active_repo: active.map(|a| a.to_string()),
    }
}

#[test]
fn normalize_keeps_a_plain_name() {
    assert_eq!(Config::normalize_repo("acme/widgets"), Ok("acme/widgets".to_string()));
}

#[test]
fn normalize_trims_white_space_and_slashes() {
    assert_eq!(Config::normalize_repo("  /acme/widgets/ \n"), Ok("acme/widgets".to_string()));
    assert_eq!(Config::normalize_repo("\t//acme/widgets//"), Ok("acme/widgets".to_string()));
}

#[test]
fn normalize_trims_unicode_white_space() {
    assert_eq!(Config::normalize_repo("\u{a0}acme/widgets\u{2003}"), Ok("acme/widgets".to_string()));
}

#[test]
fn normalize_does_not_trim_other_characters() {
    assert_eq!(Config::normalize_repo("_acme/widgets_"), Ok("_acme/widgets_".to_string()));
}

#[test]
fn normalize_trims_white_space_before_slashes_only() {
    // White space is trimmed first; what the slashes uncover stays.
    assert_eq!(Config::normalize_repo("/ acme/widgets /"), Ok(" acme/widgets ".to_string()));
}

#[test]
fn normalize_rejects_empty_input() {
    assert_eq!(Config::normalize_repo(""), Err(RepoError::Malformed));
    assert_eq!(Config::normalize_repo("   "), Err(RepoError::Malformed));
    assert_eq!(Config::normalize_repo(" /// "), Err(RepoError::Malformed));
}

#[test]
fn normalize_rejects_a_missing_name() {
    assert_eq!(Config::normalize_repo("acme"), Err(RepoError::MissingName));
    assert_eq!(Config::normalize_repo("acme/"), Err(RepoError::MissingName));
}

#[test]
fn normalize_rejects_extra_parts() {
    assert_eq!(Config::normalize_repo("acme/widgets/extra"), Err(RepoError::Malformed));
    assert_eq!(Config::normalize_repo("acme//widgets"), Err(RepoError::Malformed));
}

#[test]
fn repo_error_messages() {
    assert_eq!(RepoError::Malformed.message(), "repository must be in the form owner/name");
    assert_eq!(RepoError::MissingName.message(), "repository must include a name");
}

#[test]
fn config_error_messages() {
    assert_eq!(
        ConfigError::NotConfigured("acme/widgets".to_string()).message(),
        "repository acme/widgets is not configured"
    );
    assert_eq!(
        ConfigError::Invalid(RepoError::MissingName).message(),
        "repository must include a name"
    );
}

#[test]
fn default_config_is_empty() {
    let config = Config::default();
    assert!(config.github_token.is_none());
    assert!(config.repos().is_empty());
    assert!(config.active_repo().is_none());
}

#[test]
fn add_repo_registers_and_activates_the_first() {
    let mut config = Config::default();
    assert_eq!(config.add_repo(" acme/a "), Ok(("acme/a".to_string(), true)));
    assert_eq!(config.repos(), ["acme/a".to_string()]);
    assert_eq!(config.active_repo(), Some(&"acme/a".to_string()));
    assert_eq!(config.add_repo("acme/b"), Ok(("acme/b".to_string(), true)));
    assert_eq!(config.repos(), ["acme/a".to_string(), "acme/b".to_string()]);
    assert_eq!(config.active_repo(), Some(&"acme/a".to_string()));
}

#[test]
fn add_repo_skips_a_registered_name() {
    let mut config = config_with(&["acme/a"], None);
    assert_eq!(config.add_repo("/acme/a/"), Ok(("acme/a".to_string(), false)));
    assert_eq!(config.repos(), ["acme/a".to_string()]);
    assert_eq!(config.active_repo(), None);
}

#[test]
fn add_repo_rejects_a_bad_name_and_changes_nothing() {
    let mut config = config_with(&["acme/a"], Some("acme/a"));
    assert_eq!(config.add_repo("acme"), Err(RepoError::MissingName));
    assert_eq!(config.repos(), ["acme/a".to_string()]);
    assert_eq!(config.active_repo(), Some(&"acme/a".to_string()));
}

#[test]
fn remove_repo_promotes_the_first_remaining() {
    let mut config = config_with(&["acme/a", "acme/b", "acme/c"], Some("acme/a"));
    assert_eq!(config.remove_repo("acme/a"), Ok(("acme/a".to_string(), true)));
    assert_eq!(config.repos(), ["acme/b".to_string(), "acme/c".to_string()]);
    assert_eq!(config.active_repo(), Some(&"acme/b".to_string()));
}

#[test]
fn remove_repo_keeps_another_active_repo() {
    let mut config = config_with(&["acme/a", "acme/b"], Some("acme/b"));
    assert_eq!(config.remove_repo("acme/a"), Ok(("acme/a".to_string(), true)));
    assert_eq!(config.repos(), ["acme/b".to_string()]);
    assert_eq!(config.active_repo(), Some(&"acme/b".to_string()));
}

#[test]
fn remove_last_repo_clears_the_active_one() {
    let mut config = config_with(&["acme/a"], Some("acme/a"));
    assert_eq!(config.remove_repo("acme/a"), Ok(("acme/a".to_string(), true)));
    assert!(config.repos().is_empty());
    assert_eq!(config.active_repo(), None);
}

#[test]
fn remove_repo_reports_an_unregistered_name() {
    let mut config = config_with(&["acme/a"], Some("acme/a"));
    assert_eq!(config.remove_repo("acme/z"), Ok(("acme/z".to_string(), false)));
    assert_eq!(config.repos(), ["acme/a".to_string()]);
    assert_eq!(config.remove_repo("///"), Err(RepoError::Malformed));
}

#[test]
fn remove_repo_takes_the_first_of_repeated_names() {
    let mut config = config_with(&["acme/a", "acme/b", "acme/a"], Some("acme/b"));
    assert_eq!(config.remove_repo("acme/a"), Ok(("acme/a".to_string(), true)));
    assert_eq!(config.repos(), ["acme/b".to_string(), "acme/a".to_string()]);
}

#[test]
fn set_active_repo_selects_a_registered_name() {
    let mut config = config_with(&["acme/a", "acme/b"], Some("acme/a"));
    let r = config.set_active_repo(" acme/b ");
    assert!(matches!(r, Ok(ref name) if name == "acme/b"));
    assert_eq!(config.active_repo(), Some(&"acme/b".to_string()));
}

#[test]
fn set_active_repo_rejects_an_unregistered_name() {
    let mut config = config_with(&["acme/a"], Some("acme/a"));
    let r = config.set_active_repo("acme/z");
    assert!(matches!(r, Err(ConfigError::NotConfigured(ref name)) if name == "acme/z"));
    assert_eq!(config.active_repo(), Some(&"acme/a".to_string()));
    let r = config.set_active_repo("acme");
    assert!(matches!(r, Err(ConfigError::Invalid(RepoError::MissingName))));
}

#[test]
fn ensure_active_repo_keeps_a_registered_one() {
    let mut config = config_with(&["acme/a", "acme/b"], Some("acme/b"));
    config.ensure_active_repo();
    assert_eq!(config.active_repo(), Some(&"acme/b".to_string()));
}

#[test]
fn ensure_active_repo_replaces_a_stale_one() {
    let mut config = config_with(&["acme/a", "acme/b"], Some("acme/z"));
    config.ensure_active_repo();
    assert_eq!(config.active_repo(), Some(&"acme/a".to_string()));
    let mut config = config_with(&["acme/a"], None);
    config.ensure_active_repo();
    assert_eq!(config.active_repo(), Some(&"acme/a".to_string()));
    let mut config = config_with(&[], Some("acme/z"));
    config.ensure_active_repo();
    assert_eq!(config.active_repo(), None);
}

#[test]
fn deduplicate_keeps_first_occurrences_in_order() {
    let mut config = config_with(&["acme/b", "acme/a", "acme/b", "acme/c", "acme/a"], Some("acme/z"));
    config.deduplicate_repos();
    assert_eq!(
        config.repos(),
        ["acme/b".to_string(), "acme/a".to_string(), "acme/c".to_string()]
    );
    assert_eq!(config.active_repo(), Some(&"acme/b".to_string()));
}

#[test]
fn normalize_all_stops_at_the_first_bad_name() {
    let names = vec![" acme/a ".to_string(), "/acme/b/".to_string()];
    assert_eq!(
        Config::normalize_all(&names),
        Ok(vec!["acme/a".to_string(), "acme/b".to_string()])
    );
    let names = vec!["acme/a".to_string(), "acme".to_string(), "".to_string()];
    assert_eq!(Config::normalize_all(&names), Err(RepoError::MissingName));
    assert_eq!(Config::normalize_all(&Vec::new()), Ok(Vec::new()));
}

#[test]
fn import_counts_added_existing_and_excluded() {
    let mut config = config_with(&["acme/a"], None);
    let repos = vec![
        "acme/a".to_string(),
        "acme/b".to_string(),
        "acme/skip".to_string(),
        "acme/c".to_string(),
        "acme/b".to_string(),
    ];
    let excluded = vec!["acme/skip".to_string()];
    let summary = config.import_repos(&repos, &excluded);
    assert_eq!(
        summary,
        Ok(ImportSummary { added: 2, skipped_existing: 2, skipped_excluded: 1 })
    );
    assert_eq!(
        config.repos(),
        ["acme/a".to_string(), "acme/b".to_string(), "acme/c".to_string()]
    );
    // No repository was active: the first one registered took the place.
    assert_eq!(config.active_repo(), Some(&"acme/b".to_string()));
}

#[test]
fn import_stops_at_a_bad_name_and_keeps_what_it_added() {
    let mut config = Config::default();
    let repos = vec!["acme/a".to_string(), "broken".to_string(), "acme/b".to_string()];
    assert_eq!(config.import_repos(&repos, &Vec::new()), Err(RepoError::MissingName));
    assert_eq!(config.repos(), ["acme/a".to_string()]);
}

#[test]
fn import_normalizes_a_name_twice() {
    // The first pass uncovers white space, which the second pass trims.
    let mut config = Config::default();
    let repos = vec!["/ acme/a".to_string()];
    let summary = config.import_repos(&repos, &Vec::new());
    assert_eq!(
        summary,
        Ok(ImportSummary { added: 1, skipped_existing: 0, skipped_excluded: 0 })
    );
    assert_eq!(config.repos(), ["acme/a".to_string()]);
}

#[test]
fn init_sets_the_token_and_registers() {
    let mut config = Config::default();
    let repos = vec!["acme/a".to_string(), "acme/a".to_string(), "acme/b".to_string()];
    let report = config.apply_init(Some("token-123".to_string()), &repos);
    assert!(report.changed);
    assert_eq!(report.failure, None);
    assert_eq!(
        report.outcomes,
        vec![
            ("acme/a".to_string(), true),
            ("acme/a".to_string(), false),
            ("acme/b".to_string(), true)
        ]
    );
    assert_eq!(config.github_token, Some("token-123".to_string()));
    assert_eq!(config.active_repo(), Some(&"acme/a".to_string()));
}

#[test]
fn init_without_news_changes_nothing() {
    let mut config = config_with(&["acme/a"], Some("acme/a"));
    let report = config.apply_init(None, &vec!["acme/a".to_string()]);
    assert!(!report.changed);
    assert_eq!(report.failure, None);
    assert_eq!(report.outcomes, vec![("acme/a".to_string(), false)]);
    assert_eq!(config.github_token, None);
}

#[test]
fn init_reports_the_name_that_ended_it() {
    let mut config = Config::default();
    let repos = vec!["acme/a".to_string(), "a/b/c".to_string(), "acme/b".to_string()];
    let report = config.apply_init(None, &repos);
    assert!(report.changed);
    assert_eq!(report.failure, Some(RepoError::Malformed));
    assert_eq!(report.outcomes, vec![("acme/a".to_string(), true)]);
    assert_eq!(config.repos(), ["acme/a".to_string()]);
}
