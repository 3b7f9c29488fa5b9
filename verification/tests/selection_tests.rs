use notehub::config::{Config, RepoError};
use notehub::selection::{get_token, resolve_repos, resolve_single_repo, SelectionError};

fn config_with(repos: &[&str], active: Option<&str>) -> Config {
    Config {
        github_token: None,
        repos: repos.iter().map(|r| r.to_string()).collect(),
        active_repo: active.map(|a| a.to_string()),
    }
}

fn names(items: &[&str]) -> Vec<String> {
    items.iter().map(|r| r.to_string()).collect()
}

#[test]
fn token_is_handed_out_when_configured() {
    let mut config = Config::default();
    assert!(matches!(get_token(&config), Err(SelectionError::TokenMissing)));
    config.github_token = Some("token-123".to_string());
    assert!(matches!(get_token(&config), Ok("token-123")));
}

#[test]
fn all_selects_every_registered_repository() {
    let config = config_with(&["acme/b", "acme/a"], None);
    let selected = resolve_repos(&config, &names(&["acme/zzz"]), true, true).unwrap();
    assert_eq!(selected, names(&["acme/b", "acme/a"]));
}

#[test]
fn all_without_repositories_fails() {
    let config = Config::default();
    assert!(matches!(
        resolve_repos(&config, &[], false, true),
        Err(SelectionError::NoRepositoriesConfigured)
    ));
}

#[test]
fn requests_are_normalized_and_deduplicated_in_order() {
    let config = config_with(&["acme/a", "acme/b", "acme/c"], Some("acme/a"));
    let selected =
        resolve_repos(&config, &names(&["acme/c", " /acme/a/ ", "acme/c", "acme/a"]), true, false)
            .unwrap();
    assert_eq!(selected, names(&["acme/c", "acme/a"]));
}

#[test]
fn an_unregistered_request_fails() {
    let config = config_with(&["acme/a"], Some("acme/a"));
    let r = resolve_repos(&config, &names(&["acme/a", "acme/z", "broken"]), false, false);
    assert!(matches!(r, Err(SelectionError::UnknownRepository(ref name)) if name == "acme/z"));
}

#[test]
fn a_malformed_request_fails() {
    let config = config_with(&["acme/a"], Some("acme/a"));
    let r = resolve_repos(&config, &names(&["acme/a", "broken", "acme/z"]), false, false);
    assert!(matches!(r, Err(SelectionError::Invalid(RepoError::MissingName))));
}

#[test]
fn the_active_repository_is_the_fallback() {
    let config = config_with(&["acme/a", "acme/b"], Some("acme/b"));
    assert_eq!(resolve_repos(&config, &[], true, false).unwrap(), names(&["acme/b"]));
    let config = config_with(&["acme/a"], None);
    assert!(matches!(
        resolve_repos(&config, &[], true, false),
        Err(SelectionError::NoActiveRepository)
    ));
}

#[test]
fn nothing_requested_selects_nothing() {
    let config = config_with(&["acme/a"], Some("acme/a"));
    assert!(matches!(
        resolve_repos(&config, &[], false, false),
        Err(SelectionError::NoRepositoriesSpecified)
    ));
}

#[test]
fn a_single_repository_is_the_request_or_the_active_one() {
    let config = config_with(&["acme/a", "acme/b"], Some("acme/b"));
    assert_eq!(resolve_single_repo(&config, Some(" acme/a ")).unwrap(), "acme/a");
    assert_eq!(resolve_single_repo(&config, None).unwrap(), "acme/b");
    assert!(matches!(
        resolve_single_repo(&config, Some("acme/z")),
        Err(SelectionError::UnknownRepository(ref name)) if name == "acme/z"
    ));
    assert!(matches!(
        resolve_single_repo(&config, Some("a/b/c")),
        Err(SelectionError::Invalid(RepoError::Malformed))
    ));
    let config = config_with(&["acme/a"], None);
    assert!(matches!(resolve_single_repo(&config, None), Err(SelectionError::NoActiveRepository)));
}

#[test]
fn selection_messages() {
    assert_eq!(
        SelectionError::TokenMissing.message(),
        "GitHub token not configured. Run `notehub init --token ...`."
    );
    assert_eq!(
        SelectionError::NoRepositoriesConfigured.message(),
        "No repositories configured. Add one with `notehub repo add owner/name`."
    );
    assert_eq!(
        SelectionError::NoActiveRepository.message(),
        "No active repository configured. Use `notehub repo use owner/name` to set one."
    );
    assert_eq!(SelectionError::NoRepositoriesSpecified.message(), "No repositories specified");
    assert_eq!(
        SelectionError::UnknownRepository("acme/z".to_string()).message(),
        "repository acme/z is not configured"
    );
    assert_eq!(
        SelectionError::Invalid(RepoError::Malformed).message(),
        "repository must be in the form owner/name"
    );
}
