//! The registered repositories and the active selection among them.

use vstd::prelude::*;
use vstd::string::*;
use crate::text::{
    chars_of, count_in_window, first_index, lemma_first_index_is, lemma_unique_in_order,
    occurrences, optional_text, position_of, texts, trim_window, trimmed, unique_in_order,
    CharClass,
};

verus! {

/// Why a text does not name a repository.
#[derive(Clone, Copy, Debug, PartialEq, Eq, Structural)]
pub enum RepoError {
    /// The text is not of the form `owner/name`.
    Malformed,
    /// There is an owner but no `/name` after it.
    MissingName,
}

impl RepoError {
    /// The message shown for the error.
    pub open spec fn message_text(self) -> Seq<char> {
        match self {
            RepoError::Malformed => "repository must be in the form owner/name"@,
            RepoError::MissingName => "repository must include a name"@,
        }
    }

    /// The message shown for the error.
    pub fn message(&self) -> (m: &'static str)
        ensures
            m@ == self.message_text(),
    {
        match self {
            RepoError::Malformed => "repository must be in the form owner/name",
            RepoError::MissingName => "repository must include a name",
        }
    }
}

/// Why a configuration change was turned down.
#[derive(Debug)]
pub enum ConfigError {
    /// The text does not name a repository.
    Invalid(RepoError),
    /// The repository, given by its normalized name, is not registered.
    NotConfigured(String),
}

impl ConfigError {
    /// The message shown for the error.
    pub open spec fn message_text(self) -> Seq<char> {
        match self {
            ConfigError::Invalid(e) => e.message_text(),
            ConfigError::NotConfigured(name) => "repository "@ + name@ + " is not configured"@,
        }
    }

    /// The message shown for the error.
    pub fn message(&self) -> (m: String)
        ensures
            m@ == self.message_text(),
    {
        match self {
            ConfigError::Invalid(e) => String::from_str(e.message()),
            ConfigError::NotConfigured(name) => String::from_str("repository ").concat(
                name.as_str(),
            ).concat(" is not configured"),
        }
    }
}

/// A repository reference with white space and, after that, slashes trimmed
/// off both of its ends.
pub open spec fn stripped(repo: Seq<char>) -> Seq<char> {
    trimmed(trimmed(repo, CharClass::WhiteSpace), CharClass::Slash)
}

/// The normalized `owner/name` form of a repository reference: the stripped
/// text, provided that it is not empty and holds exactly one `/`. A text
/// without any `/` lacks the name; an empty one, or one with several `/`, is
/// malformed.
pub open spec fn normalized(repo: Seq<char>) -> Result<Seq<char>, RepoError> {
    let name = stripped(repo);
    if name.len() == 0 {
        Err(RepoError::Malformed)
    } else if occurrences(name, '/') == 0 {
        Err(RepoError::MissingName)
    } else if occurrences(name, '/') == 1 {
        Ok(name)
    } else {
        Err(RepoError::Malformed)
    }
}

/// What a configuration holds, as plain texts.
pub struct ConfigView {
    pub github_token: Option<Seq<char>>,
    pub repos: Seq<Seq<char>>,
    pub active_repo: Option<Seq<char>>,
}

impl ConfigView {
    /// The first registered repository, if there is any.
    pub open spec fn first_repo(self) -> Option<Seq<char>> {
        if self.repos.len() > 0 {
            Some(self.repos[0])
        } else {
            None
        }
    }

    /// Whether the active repository is one of the registered ones.
    pub open spec fn active_is_registered(self) -> bool {
        self.active_repo matches Some(name) && self.repos.contains(name)
    }

    /// The configuration with `name` registered at the end, unless it is
    /// registered already; a configuration without an active repository makes
    /// the newcomer active.
    pub open spec fn added(self, name: Seq<char>) -> ConfigView {
        if self.repos.contains(name) {
            self
        } else {
            ConfigView {
                github_token: self.github_token,
                repos: self.repos.push(name),
                active_repo: if self.active_repo is None {
                    Some(name)
                } else {
                    self.active_repo
                },
            }
        }
    }

    /// The configuration without the first registration of `name`; where `name`
    /// was active, the first remaining repository takes its place.
    pub open spec fn removed(self, name: Seq<char>) -> ConfigView {
        if self.repos.contains(name) {
            let rest = self.repos.remove(first_index(self.repos, name));
            ConfigView {
                github_token: self.github_token,
                repos: rest,
                active_repo: if self.active_repo == Some(name) {
                    if rest.len() > 0 {
                        Some(rest[0])
                    } else {
                        None
                    }
                } else {
                    self.active_repo
                },
            }
        } else {
            self
        }
    }

    /// The configuration with `name` as its active repository.
    pub open spec fn activated(self, name: Seq<char>) -> ConfigView {
        ConfigView {
            github_token: self.github_token,
            repos: self.repos,
            active_repo: Some(name),
        }
    }

    /// The configuration with an active repository that is registered: the
    /// present one if it is, else the first registered one, if any.
    pub open spec fn active_ensured(self) -> ConfigView {
        if self.active_is_registered() {
            self
        } else {
            ConfigView {
                github_token: self.github_token,
                repos: self.repos,
                active_repo: self.first_repo(),
            }
        }
    }

    /// The configuration with repeated registrations dropped and a registered
    /// active repository.
    pub open spec fn deduplicated(self) -> ConfigView {
        ConfigView {
            github_token: self.github_token,
            repos: unique_in_order(self.repos),
            active_repo: self.active_repo,
        }.active_ensured()
    }
}

/// How far an import of repository names has come.
pub struct ImportView {
    pub config: ConfigView,
    pub added: nat,
    pub skipped_existing: nat,
    pub skipped_excluded: nat,
    pub failure: Option<RepoError>,
}

/// The import after one more name. A name is normalized; an excluded one is
/// skipped; any other is normalized once more and registered unless it is
/// registered already. The first name that fails to normalize ends the import.
pub open spec fn import_step(state: ImportView, repo: Seq<char>, excluded: Seq<Seq<char>>) -> ImportView {
    if state.failure is Some {
        state
    } else {
        match normalized(repo) {
            Err(e) => ImportView { failure: Some(e), ..state },
            Ok(name) => if excluded.contains(name) {
                ImportView { skipped_excluded: state.skipped_excluded + 1, ..state }
            } else {
                match normalized(name) {
                    Err(e) => ImportView { failure: Some(e), ..state },
                    Ok(again) => if state.config.repos.contains(again) {
                        ImportView { skipped_existing: state.skipped_existing + 1, ..state }
                    } else {
                        ImportView {
                            config: state.config.added(again),
                            added: state.added + 1,
                            ..state
                        }
                    },
                }
            },
        }
    }
}

/// The import of `repos`, one after the other, into `config`.
pub open spec fn import_fold(config: ConfigView, repos: Seq<Seq<char>>, excluded: Seq<Seq<char>>) -> ImportView
    decreases repos.len(),
{
    if repos.len() == 0 {
        ImportView { config, added: 0, skipped_existing: 0, skipped_excluded: 0, failure: None }
    } else {
        import_step(import_fold(config, repos.drop_last(), excluded), repos.last(), excluded)
    }
}

/// The normalized forms of `repos`, or the error of the first that has none.
pub open spec fn normalized_all(repos: Seq<Seq<char>>) -> Result<Seq<Seq<char>>, RepoError>
    decreases repos.len(),
{
    if repos.len() == 0 {
        Ok(repos)
    } else {
        match normalized_all(repos.drop_last()) {
            Err(e) => Err(e),
            Ok(front) => match normalized(repos.last()) {
                Err(e) => Err(e),
                Ok(name) => Ok(front.push(name)),
            },
        }
    }
}

/// How far a registration of several repositories has come: the
/// configuration, the normalized name of each repository with whether it was
/// new, and the error that ended the registration, if one did.
pub struct RegistrationView {
    pub config: ConfigView,
    pub outcomes: Seq<(Seq<char>, bool)>,
    pub failure: Option<RepoError>,
}

/// The registration after one more repository.
pub open spec fn register_step(state: RegistrationView, repo: Seq<char>) -> RegistrationView {
    if state.failure is Some {
        state
    } else {
        match normalized(repo) {
            Err(e) => RegistrationView { failure: Some(e), ..state },
            Ok(name) => RegistrationView {
                config: state.config.added(name),
                outcomes: state.outcomes.push((name, !state.config.repos.contains(name))),
                failure: None,
            },
        }
    }
}

/// The registration of `repos`, one after the other, into `config`.
pub open spec fn register_fold(config: ConfigView, repos: Seq<Seq<char>>) -> RegistrationView
    decreases repos.len(),
{
    if repos.len() == 0 {
        RegistrationView { config, outcomes: Seq::empty(), failure: None }
    } else {
        register_step(register_fold(config, repos.drop_last()), repos.last())
    }
}

/// Whether some outcome reports a new registration.
pub open spec fn any_added(outcomes: Seq<(Seq<char>, bool)>) -> bool {
    exists|i: int| 0 <= i < outcomes.len() && (#[trigger] outcomes[i]).1
}

/// The outcomes as plain texts.
pub open spec fn outcome_texts(outcomes: Seq<(String, bool)>) -> Seq<(Seq<char>, bool)> {
    outcomes.map_values(|o: (String, bool)| (o.0@, o.1))
}

/// What an import did with the names it was given.
#[derive(Clone, Copy, Debug, PartialEq, Eq, Structural)]
pub struct ImportSummary {
    /// Names that were registered.
    pub added: usize,
    /// Names that were registered before.
    pub skipped_existing: usize,
    /// Names that the caller had excluded.
    pub skipped_excluded: usize,
}

/// What an initialization did.
#[derive(Debug)]
pub struct InitReport {
    /// The normalized name of each repository that was handled, with whether
    /// it was new.
    pub outcomes: Vec<(String, bool)>,
    /// Whether the configuration has to be saved: a token was given or a
    /// repository was new.
    pub changed: bool,
    /// The error that ended the initialization early, if one did.
    pub failure: Option<RepoError>,
}

/// The access token, the registered repositories in the order of their
/// registration, and the repository that commands fall back to.
#[derive(Debug)]
pub struct Config {
    pub github_token: Option<String>,
    pub repos: Vec<String>,
    pub active_repo: Option<String>,
}

impl View for Config {
    type V = ConfigView;

    open spec fn view(&self) -> ConfigView {
        ConfigView {
            github_token: optional_text(self.github_token),
            repos: texts(self.repos@),
            active_repo: optional_text(self.active_repo),
        }
    }
}

impl Default for Config {
    fn default() -> (c: Config)
        ensures
            c@.github_token is None,
            c@.repos.len() == 0,
            c@.active_repo is None,
    {
        Config { github_token: None, repos: Vec::new(), active_repo: None }
    }
}

impl Config {
    /// Brings a repository reference into its `owner/name` form.
    pub fn normalize_repo(repo: &str) -> (r: Result<String, RepoError>)
        ensures
            match normalized(repo@) {
                Ok(name) => r matches Ok(s) && s@ == name,
                Err(e) => r matches Err(x) && x == e,
            },
    {
        let chars = chars_of(repo);
        let outer = trim_window(&chars, 0, chars.len(), CharClass::WhiteSpace);
        let inner = trim_window(&chars, outer.0, outer.1, CharClass::Slash);
        proof {
            assert(chars@.subrange(0, chars.len() as int) =~= repo@);
        }
        if inner.0 == inner.1 {
            return Err(RepoError::Malformed);
        }
        let slashes = count_in_window(&chars, inner.0, inner.1, '/');
        if slashes == 0 {
            Err(RepoError::MissingName)
        } else if slashes == 1 {
            Ok(repo.substring_char(inner.0, inner.1).to_owned())
        } else {
            Err(RepoError::Malformed)
        }
    }

    /// Registers a repository. The result holds its normalized name and
    /// whether it was new.
    pub fn add_repo(&mut self, repo: &str) -> (r: Result<(String, bool), RepoError>)
        ensures
            match normalized(repo@) {
                Ok(name) => r matches Ok((stored, added)) && stored@ == name && added
                    == !old(self)@.repos.contains(name) && final(self)@ == old(self)@.added(name),
                Err(e) => r matches Err(x) && x == e && *final(self) == *old(self),
            },
    {
        let name = match Config::normalize_repo(repo) {
            Ok(name) => name,
            Err(e) => {
                return Err(e);
            },
        };
        match position_of(&self.repos, &name) {
            Some(_) => Ok((name, false)),
            None => {
                self.repos.push(name.clone());
                if self.active_repo.is_none() {
                    self.active_repo = Some(name.clone());
                }
                proof {
                    assert(texts(self.repos@) =~= texts(old(self).repos@).push(name@));
                }
                Ok((name, true))
            },
        }
    }

    /// The first registered repository, if there is any.
    fn first_repo(&self) -> (first: Option<String>)
        ensures
            optional_text(first) == self@.first_repo(),
    {
        if self.repos.len() > 0 {
            Some(self.repos[0].clone())
        } else {
            None
        }
    }

    /// Whether the active repository is `name`.
    fn active_is(&self, name: &String) -> (b: bool)
        ensures
            b == (self@.active_repo == Some(name@)),
    {
        match &self.active_repo {
            Some(active) => *active == *name,
            None => false,
        }
    }

    /// Takes a repository out of the registry. The result holds its
    /// normalized name and whether it was registered.
    pub fn remove_repo(&mut self, repo: &str) -> (r: Result<(String, bool), RepoError>)
        ensures
            match normalized(repo@) {
                Ok(name) => r matches Ok((stored, removed)) && stored@ == name && removed
                    == old(self)@.repos.contains(name) && final(self)@ == old(self)@.removed(
                    name,
                ),
                Err(e) => r matches Err(x) && x == e && *final(self) == *old(self),
            },
    {
        let name = match Config::normalize_repo(repo) {
            Ok(name) => name,
            Err(e) => {
                return Err(e);
            },
        };
        match position_of(&self.repos, &name) {
            Some(pos) => {
                self.repos.remove(pos);
                proof {
                    assert(texts(self.repos@) =~= texts(old(self).repos@).remove(pos as int));
                }
                if self.active_is(&name) {
                    self.active_repo = self.first_repo();
                }
                Ok((name, true))
            },
            None => Ok((name, false)),
        }
    }

    /// Makes a registered repository the active one and returns its
    /// normalized name.
    pub fn set_active_repo(&mut self, repo: &str) -> (r: Result<String, ConfigError>)
        ensures
            match normalized(repo@) {
                Ok(name) => if old(self)@.repos.contains(name) {
                    r matches Ok(stored) && stored@ == name && final(self)@ == old(
                        self,
                    )@.activated(name)
                } else {
                    r matches Err(ConfigError::NotConfigured(missing)) && missing@ == name
                        && *final(self) == *old(self)
                },
                Err(e) => r matches Err(ConfigError::Invalid(x)) && x == e && *final(self) == *old(
                    self,
                ),
            },
    {
        let name = match Config::normalize_repo(repo) {
            Ok(name) => name,
            Err(e) => {
                return Err(ConfigError::Invalid(e));
            },
        };
        match position_of(&self.repos, &name) {
            Some(_) => {
                self.active_repo = Some(name.clone());
                Ok(name)
            },
            None => Err(ConfigError::NotConfigured(name)),
        }
    }

    /// Leaves a registered active repository as it is; any other gives way to
    /// the first registered repository, or to none.
    pub fn ensure_active_repo(&mut self)
        ensures
            final(self)@ == old(self)@.active_ensured(),
            final(self)@.repos.len() > 0 ==> final(self)@.active_is_registered(),
            final(self)@.repos.len() == 0 ==> final(self)@.active_repo is None,
    {
        let keep = match &self.active_repo {
            Some(active) => position_of(&self.repos, active).is_some(),
            None => false,
        };
        if !keep {
            self.active_repo = self.first_repo();
        }
    }

    /// The registered repositories, in the order of their registration.
    pub fn repos(&self) -> (r: &[String])
        ensures
            r@ == self.repos@,
    {
        self.repos.as_slice()
    }

    /// The active repository, if one is selected.
    pub fn active_repo(&self) -> (r: Option<&String>)
        ensures
            r matches Some(name) ==> self.active_repo == Some(*name),
            r is None ==> self.active_repo is None,
    {
        self.active_repo.as_ref()
    }

    /// Drops repeated registrations, keeping each first one in place, and
    /// repairs the active selection.
    pub fn deduplicate_repos(&mut self)
        ensures
            final(self)@ == old(self)@.deduplicated(),
            final(self)@.repos.no_duplicates(),
            final(self)@.repos.len() > 0 ==> final(self)@.active_is_registered(),
            final(self)@.repos.len() == 0 ==> final(self)@.active_repo is None,
    {
        let mut unique: Vec<String> = Vec::new();
        let mut i: usize = 0;
        while i < self.repos.len()
            invariant
                i <= self.repos.len(),
                *self == *old(self),
                texts(unique@) == unique_in_order(texts(self.repos@).take(i as int)),
            decreases self.repos.len() - i,
        {
            proof {
                assert(texts(self.repos@).take(i + 1).drop_last() =~= texts(self.repos@).take(
                    i as int,
                ));
            }
            if position_of(&unique, &self.repos[i]).is_none() {
                unique.push(self.repos[i].clone());
                proof {
                    assert(texts(unique@) =~= unique_in_order(
                        texts(self.repos@).take(i as int),
                    ).push(self.repos[i as int]@));
                }
            }
            i += 1;
        }
        proof {
            assert(texts(self.repos@).take(i as int) =~= texts(self.repos@));
            lemma_unique_in_order(texts(self.repos@));
        }
        self.repos = unique;
        self.ensure_active_repo();
    }

    /// Normalizes every name of `repos`; the first that cannot be normalized
    /// gives the error.
    pub fn normalize_all(repos: &Vec<String>) -> (r: Result<Vec<String>, RepoError>)
        ensures
            match normalized_all(texts(repos@)) {
                Ok(names) => r matches Ok(v) && texts(v@) == names,
                Err(e) => r matches Err(x) && x == e,
            },
    {
        let mut names: Vec<String> = Vec::new();
        let mut i: usize = 0;
        proof {
            assert(texts(repos@).take(0) =~= texts(names@));
        }
        while i < repos.len()
            invariant
                i <= repos.len(),
                normalized_all(texts(repos@).take(i as int)) == Ok::<Seq<Seq<char>>, RepoError>(
                    texts(names@),
                ),
            decreases repos.len() - i,
        {
            proof {
                assert(texts(repos@).take(i + 1).drop_last() =~= texts(repos@).take(i as int));
            }
            match Config::normalize_repo(repos[i].as_str()) {
                Ok(name) => {
                    proof {
                        assert(texts(names@.push(name)) =~= texts(names@).push(name@));
                    }
                    names.push(name);
                },
                Err(e) => {
                    proof {
                        lemma_normalized_all_fails(texts(repos@), i as int);
                    }
                    return Err(e);
                },
            }
            i += 1;
        }
        proof {
            assert(texts(repos@).take(i as int) =~= texts(repos@));
        }
        Ok(names)
    }

    /// Registers each of `repos` that is not among `excluded`, a list of
    /// normalized names, and repairs the active selection at the end. An
    /// import that meets a name it cannot normalize stops there with the
    /// error and keeps what it had registered.
    pub fn import_repos(&mut self, repos: &Vec<String>, excluded: &Vec<String>) -> (r: Result<
        ImportSummary,
        RepoError,
    >)
        ensures
            ({
                let end = import_fold(old(self)@, texts(repos@), texts(excluded@));
                match end.failure {
                    Some(e) => r matches Err(x) && x == e && final(self)@ == end.config,
                    None => r matches Ok(summary) && summary.added == end.added
                        && summary.skipped_existing == end.skipped_existing
                        && summary.skipped_excluded == end.skipped_excluded && final(self)@
                        == end.config.active_ensured(),
                }
            }),
    {
        let mut summary = ImportSummary { added: 0, skipped_existing: 0, skipped_excluded: 0 };
        let mut i: usize = 0;
        while i < repos.len()
            invariant
                i <= repos.len(),
                summary.added + summary.skipped_existing + summary.skipped_excluded == i,
                import_fold(old(self)@, texts(repos@).take(i as int), texts(excluded@))
                    == (ImportView {
                    config: self@,
                    added: summary.added as nat,
                    skipped_existing: summary.skipped_existing as nat,
                    skipped_excluded: summary.skipped_excluded as nat,
                    failure: None,
                }),
            decreases repos.len() - i,
        {
            proof {
                assert(texts(repos@).take(i + 1).drop_last() =~= texts(repos@).take(i as int));
            }
            let name = match Config::normalize_repo(repos[i].as_str()) {
                Ok(name) => name,
                Err(e) => {
                    proof {
                        lemma_import_stays_failed(
                            old(self)@,
                            texts(repos@),
                            texts(excluded@),
                            i + 1,
                        );
                    }
                    return Err(e);
                },
            };
            if position_of(excluded, &name).is_some() {
                summary.skipped_excluded += 1;
            } else {
                match self.add_repo(name.as_str()) {
                    Ok((_, true)) => {
                        summary.added += 1;
                    },
                    Ok((_, false)) => {
                        summary.skipped_existing += 1;
                    },
                    Err(e) => {
                        proof {
                            lemma_import_stays_failed(
                                old(self)@,
                                texts(repos@),
                                texts(excluded@),
                                i + 1,
                            );
                        }
                        return Err(e);
                    },
                }
            }
            i += 1;
        }
        proof {
            assert(texts(repos@).take(i as int) =~= texts(repos@));
        }
        self.ensure_active_repo();
        Ok(summary)
    }

    /// Stores the token, if one is given, registers each of `repos` and
    /// repairs the active selection. A repository that cannot be normalized
    /// ends the run: the report names the error, and the selection is left
    /// as the registrations made it.
    pub fn apply_init(&mut self, token: Option<String>, repos: &Vec<String>) -> (report:
        InitReport)
        ensures
            ({
                let end = register_fold(
                    ConfigView {
                        github_token: if token is Some {
                            optional_text(token)
                        } else {
                            old(self)@.github_token
                        },
                        ..old(self)@
                    },
                    texts(repos@),
                );
                &&& outcome_texts(report.outcomes@) == end.outcomes
                &&& report.failure == end.failure
                &&& report.changed == (token is Some || any_added(end.outcomes))
                &&& final(self)@ == if end.failure is Some {
                    end.config
                } else {
                    end.config.active_ensured()
                }
            }),
    {
        let mut changed = false;
        if token.is_some() {
            self.github_token = token;
            changed = true;
        }
        let ghost start = self@;
        let mut outcomes: Vec<(String, bool)> = Vec::new();
        let mut i: usize = 0;
        proof {
            assert(outcome_texts(outcomes@) =~= Seq::empty());
        }
        while i < repos.len()
            invariant
                i <= repos.len(),
                start == (ConfigView {
                    github_token: if token is Some {
                        optional_text(token)
                    } else {
                        old(self)@.github_token
                    },
                    ..old(self)@
                }),
                register_fold(start, texts(repos@).take(i as int)) == (RegistrationView {
                    config: self@,
                    outcomes: outcome_texts(outcomes@),
                    failure: None,
                }),
                changed == (token is Some || any_added(outcome_texts(outcomes@))),
            decreases repos.len() - i,
        {
            proof {
                assert(texts(repos@).take(i + 1).drop_last() =~= texts(repos@).take(i as int));
            }
            match self.add_repo(repos[i].as_str()) {
                Ok((name, added)) => {
                    let ghost before = outcome_texts(outcomes@);
                    changed = changed || added;
                    outcomes.push((name, added));
                    proof {
                        let after = outcome_texts(outcomes@);
                        assert(after =~= before.push((name@, added)));
                        if any_added(before) {
                            let k = choose|k: int| 0 <= k < before.len() && (#[trigger] before[k]).1;
                            assert(after[k].1);
                        }
                        if added {
                            assert(after[before.len() as int].1);
                        }
                        if any_added(after) {
                            let k = choose|k: int| 0 <= k < after.len() && (#[trigger] after[k]).1;
                            if k < before.len() {
                                assert(before[k].1);
                            }
                        }
                    }
                },
                Err(e) => {
                    proof {
                        let so_far = register_fold(start, texts(repos@).take(i as int));
                        assert(register_fold(start, texts(repos@).take(i + 1)) == register_step(
                            so_far,
                            texts(repos@)[i as int],
                        ));
                        lemma_register_stays_failed(start, texts(repos@), i + 1);
                    }
                    return InitReport { outcomes, changed, failure: Some(e) };
                },
            }
            i += 1;
        }
        proof {
            assert(texts(repos@).take(i as int) =~= texts(repos@));
        }
        self.ensure_active_repo();
        InitReport { outcomes, changed, failure: None }
    }
}

/// Once a prefix of the names cannot be normalized, neither can the whole.
proof fn lemma_normalized_all_fails(repos: Seq<Seq<char>>, i: int)
    requires
        0 <= i < repos.len(),
        normalized_all(repos.take(i)) is Ok,
        normalized(repos[i]) is Err,
    ensures
        normalized_all(repos) == Err::<Seq<Seq<char>>, RepoError>(normalized(repos[i])->Err_0),
    decreases repos.len(),
{
    if i == repos.len() - 1 {
        assert(repos.drop_last() =~= repos.take(i));
    } else {
        assert(repos.drop_last().take(i) =~= repos.take(i));
        lemma_normalized_all_fails(repos.drop_last(), i);
    }
}

/// An import that has failed after `n` names ends as it stood there.
proof fn lemma_import_stays_failed(
    config: ConfigView,
    repos: Seq<Seq<char>>,
    excluded: Seq<Seq<char>>,
    n: int,
)
    requires
        0 <= n <= repos.len(),
        import_fold(config, repos.take(n), excluded).failure is Some,
    ensures
        import_fold(config, repos, excluded) == import_fold(config, repos.take(n), excluded),
    decreases repos.len(),
{
    if n == repos.len() {
        assert(repos.take(n) =~= repos);
    } else {
        assert(repos.drop_last().take(n) =~= repos.take(n));
        lemma_import_stays_failed(config, repos.drop_last(), excluded, n);
    }
}

/// A registration that has failed after `n` repositories ends as it stood
/// there.
proof fn lemma_register_stays_failed(config: ConfigView, repos: Seq<Seq<char>>, n: int)
    requires
        0 <= n <= repos.len(),
        register_fold(config, repos.take(n)).failure is Some,
    ensures
        register_fold(config, repos) == register_fold(config, repos.take(n)),
    decreases repos.len(),
{
    if n == repos.len() {
        assert(repos.take(n) =~= repos);
    } else {
        assert(repos.drop_last().take(n) =~= repos.take(n));
        lemma_register_stays_failed(config, repos.drop_last(), n);
    }
}

} // verus!
