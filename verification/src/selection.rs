//! Which repositories a command works on.

use vstd::prelude::*;
use vstd::string::*;
use crate::config::{normalized, Config, ConfigView, RepoError};
use crate::text::{optional_text, position_of, texts};

verus! {

/// Why no repository, or no credential, could be settled on.
#[derive(Debug)]
pub enum SelectionError {
    /// No access token is configured.
    TokenMissing,
    /// All repositories were asked for, and none is registered.
    NoRepositoriesConfigured,
    /// The active repository was asked for, and none is selected.
    NoActiveRepository,
    /// Nothing was asked for.
    NoRepositoriesSpecified,
    /// A requested text does not name a repository.
    Invalid(RepoError),
    /// A requested repository, given by its normalized name, is not
    /// registered.
    UnknownRepository(String),
}

/// A failure to select, as plain values.
pub enum SelectionFailure {
    TokenMissing,
    NoRepositoriesConfigured,
    NoActiveRepository,
    NoRepositoriesSpecified,
    Invalid(RepoError),
    UnknownRepository(Seq<char>),
}

impl View for SelectionError {
    type V = SelectionFailure;

    open spec fn view(&self) -> SelectionFailure {
        match *self {
            SelectionError::TokenMissing => SelectionFailure::TokenMissing,
            SelectionError::NoRepositoriesConfigured => SelectionFailure::NoRepositoriesConfigured,
            SelectionError::NoActiveRepository => SelectionFailure::NoActiveRepository,
            SelectionError::NoRepositoriesSpecified => SelectionFailure::NoRepositoriesSpecified,
            SelectionError::Invalid(e) => SelectionFailure::Invalid(e),
            SelectionError::UnknownRepository(name) => SelectionFailure::UnknownRepository(name@),
        }
    }
}

impl SelectionFailure {
    /// The message shown for the failure.
    pub open spec fn message_text(self) -> Seq<char> {
        match self {
            SelectionFailure::TokenMissing =>
                "GitHub token not configured. Run `notehub init --token ...`."@,
            SelectionFailure::NoRepositoriesConfigured =>
                "No repositories configured. Add one with `notehub repo add owner/name`."@,
            SelectionFailure::NoActiveRepository =>
                "No active repository configured. Use `notehub repo use owner/name` to set one."@,
            SelectionFailure::NoRepositoriesSpecified => "No repositories specified"@,
            SelectionFailure::Invalid(e) => e.message_text(),
            SelectionFailure::UnknownRepository(name) => "repository "@ + name
                + " is not configured"@,
        }
    }
}

impl SelectionError {
    /// The message shown for the error.
    pub fn message(&self) -> (m: String)
        ensures
            m@ == self@.message_text(),
    {
        match self {
            SelectionError::TokenMissing => String::from_str(
                "GitHub token not configured. Run `notehub init --token ...`.",
            ),
            SelectionError::NoRepositoriesConfigured => String::from_str(
                "No repositories configured. Add one with `notehub repo add owner/name`.",
            ),
            SelectionError::NoActiveRepository => String::from_str(
                "No active repository configured. Use `notehub repo use owner/name` to set one.",
            ),
            SelectionError::NoRepositoriesSpecified => String::from_str(
                "No repositories specified",
            ),
            SelectionError::Invalid(e) => String::from_str(e.message()),
            SelectionError::UnknownRepository(name) => String::from_str("repository ").concat(
                name.as_str(),
            ).concat(" is not configured"),
        }
    }
}

/// The repositories that a list of requests selects among the `registered`
/// ones: the normalized name of each request, in the order of the requests
/// and each name once. The first request that names no repository, or none
/// that is registered, fails the selection.
pub open spec fn requested_selection(
    registered: Seq<Seq<char>>,
    requested: Seq<Seq<char>>,
) -> Result<Seq<Seq<char>>, SelectionFailure>
    decreases requested.len(),
{
    if requested.len() == 0 {
        Ok(Seq::empty())
    } else {
        match requested_selection(registered, requested.drop_last()) {
            Err(e) => Err(e),
            Ok(front) => match normalized(requested.last()) {
                Err(e) => Err(SelectionFailure::Invalid(e)),
                Ok(name) => if !registered.contains(name) {
                    Err(SelectionFailure::UnknownRepository(name))
                } else if front.contains(name) {
                    Ok(front)
                } else {
                    Ok(front.push(name))
                },
            },
        }
    }
}

/// The repositories that a command works on. With `all`, they are the
/// registered ones, and there must be one. Else the requests decide, where
/// there are any. Else the active repository is taken, if the command falls
/// back to it and one is selected. Else nothing is selected.
pub open spec fn selection(
    config: ConfigView,
    requested: Seq<Seq<char>>,
    use_active: bool,
    all: bool,
) -> Result<Seq<Seq<char>>, SelectionFailure> {
    if all {
        if config.repos.len() == 0 {
            Err(SelectionFailure::NoRepositoriesConfigured)
        } else {
            Ok(config.repos)
        }
    } else if requested.len() > 0 {
        requested_selection(config.repos, requested)
    } else if use_active {
        match config.active_repo {
            Some(active) => Ok(seq![active]),
            None => Err(SelectionFailure::NoActiveRepository),
        }
    } else {
        Err(SelectionFailure::NoRepositoriesSpecified)
    }
}

/// The one repository that a command works on: the requested one, if it is
/// registered, or for want of a request the active one.
pub open spec fn single_selection(config: ConfigView, requested: Option<Seq<char>>) -> Result<
    Seq<char>,
    SelectionFailure,
> {
    match requested {
        Some(repo) => match normalized(repo) {
            Err(e) => Err(SelectionFailure::Invalid(e)),
            Ok(name) => if config.repos.contains(name) {
                Ok(name)
            } else {
                Err(SelectionFailure::UnknownRepository(name))
            },
        },
        None => match config.active_repo {
            Some(active) => Ok(active),
            None => Err(SelectionFailure::NoActiveRepository),
        },
    }
}

/// What the requests select holds no name twice, only registered names, and
/// a name for every request.
pub proof fn lemma_requested_selection(registered: Seq<Seq<char>>, requested: Seq<Seq<char>>)
    ensures
        requested_selection(registered, requested) matches Ok(names) ==> {
            &&& names.no_duplicates()
            &&& names.len() <= requested.len()
            &&& requested.len() > 0 ==> names.len() > 0
            &&& forall|i: int| 0 <= i < names.len() ==> registered.contains(#[trigger] names[i])
            &&& forall|k: int|
                0 <= k < requested.len() ==> normalized(#[trigger] requested[k]) is Ok
                    && names.contains(normalized(requested[k])->Ok_0)
        },
    decreases requested.len(),
{
    if requested.len() > 0 {
        let front = requested.drop_last();
        lemma_requested_selection(registered, front);
        match requested_selection(registered, requested) {
            Ok(names) => {
                let before = requested_selection(registered, front)->Ok_0;
                let name = normalized(requested.last())->Ok_0;
                assert forall|k: int| 0 <= k < requested.len() implies normalized(
                    #[trigger] requested[k],
                ) is Ok && names.contains(normalized(requested[k])->Ok_0) by {
                    if k < front.len() {
                        assert(front[k] == requested[k]);
                        let found = normalized(requested[k])->Ok_0;
                        assert(before.contains(found));
                        let j = choose|j: int| 0 <= j < before.len() && before[j] == found;
                        assert(names[j] == found);
                    } else if before.contains(name) {
                    } else {
                        assert(names[before.len() as int] == name);
                    }
                }
            },
            Err(_) => {},
        }
    }
}

/// The access token of the configuration.
pub fn get_token<'a>(config: &'a Config) -> (r: Result<&'a str, SelectionError>)
    ensures
        match config@.github_token {
            Some(token) => r matches Ok(t) && t@ == token,
            None => r matches Err(e) && e@ == SelectionFailure::TokenMissing,
        },
{
    match &config.github_token {
        Some(token) => Ok(token.as_str()),
        None => Err(SelectionError::TokenMissing),
    }
}

/// Settles the repositories that a command works on: see [`selection`].
pub fn resolve_repos(config: &Config, requested: &[String], use_active: bool, all: bool) -> (r:
    Result<Vec<String>, SelectionError>)
    ensures
        match selection(config@, texts(requested@), use_active, all) {
            Ok(names) => r matches Ok(v) && texts(v@) == names,
            Err(e) => r matches Err(x) && x@ == e,
        },
        r is Ok && (all ==> config@.repos.no_duplicates()) ==> texts(r->Ok_0@).no_duplicates(),
        r matches Ok(v) ==> v.len() > 0,
{
    if all {
        if config.repos.len() == 0 {
            return Err(SelectionError::NoRepositoriesConfigured);
        }
        let mut repos: Vec<String> = Vec::new();
        let mut i: usize = 0;
        while i < config.repos.len()
            invariant
                i <= config.repos.len(),
                texts(repos@) == texts(config.repos@).take(i as int),
            decreases config.repos.len() - i,
        {
            let ghost before = repos@;
            let repo = config.repos[i].clone();
            repos.push(repo);
            proof {
                assert(texts(before.push(repo)) =~= texts(before).push(repo@));
                assert(texts(config.repos@).take(i + 1) =~= texts(config.repos@).take(
                    i as int,
                ).push(config.repos@[i as int]@));
            }
            i += 1;
        }
        proof {
            assert(texts(config.repos@).take(i as int) =~= texts(config.repos@));
        }
        return Ok(repos);
    }
    if requested.len() > 0 {
        let mut result: Vec<String> = Vec::new();
        let mut i: usize = 0;
        proof {
            assert(texts(result@) =~= Seq::<Seq<char>>::empty());
        }
        while i < requested.len()
            invariant
                i <= requested.len(),
                !all,
                requested.len() > 0,
                requested_selection(config@.repos, texts(requested@).take(i as int)) == Ok::<
                    Seq<Seq<char>>,
                    SelectionFailure,
                >(texts(result@)),
            decreases requested.len() - i,
        {
            proof {
                assert(texts(requested@).take(i + 1).drop_last() =~= texts(requested@).take(
                    i as int,
                ));
                assert(texts(requested@).take(i + 1).last() == requested@[i as int]@);
            }
            let name = match Config::normalize_repo(requested[i].as_str()) {
                Ok(name) => name,
                Err(e) => {
                    proof {
                        lemma_selection_stays_failed(config@.repos, texts(requested@), i + 1);
                    }
                    return Err(SelectionError::Invalid(e));
                },
            };
            if position_of(&config.repos, &name).is_none() {
                proof {
                    lemma_selection_stays_failed(config@.repos, texts(requested@), i + 1);
                }
                return Err(SelectionError::UnknownRepository(name));
            }
            if position_of(&result, &name).is_none() {
                proof {
                    assert(texts(result@.push(name)) =~= texts(result@).push(name@));
                }
                result.push(name);
            }
            i += 1;
        }
        proof {
            assert(texts(requested@).take(i as int) =~= texts(requested@));
            lemma_requested_selection(config@.repos, texts(requested@));
        }
        return Ok(result);
    }
    if use_active {
        return match &config.active_repo {
            Some(active) => {
                let mut only: Vec<String> = Vec::new();
                only.push(active.clone());
                proof {
                    assert(texts(only@) =~= seq![active@]);
                }
                Ok(only)
            },
            None => Err(SelectionError::NoActiveRepository),
        };
    }
    Err(SelectionError::NoRepositoriesSpecified)
}

/// Settles the one repository that a command works on: see
/// [`single_selection`].
pub fn resolve_single_repo(config: &Config, requested: Option<&str>) -> (r: Result<
    String,
    SelectionError,
>)
    ensures
        match single_selection(
            config@,
            match requested {
                Some(repo) => Some(repo@),
                None => None,
            },
        ) {
            Ok(name) => r matches Ok(s) && s@ == name,
            Err(e) => r matches Err(x) && x@ == e,
        },
{
    let mut wanted: Vec<String> = Vec::new();
    let use_active = match requested {
        Some(repo) => {
            wanted.push(repo.to_owned());
            false
        },
        None => true,
    };
    proof {
        if requested is Some {
            let only = texts(wanted@);
            assert(only =~= seq![requested->0@]);
            assert(only.drop_last() =~= Seq::<Seq<char>>::empty());
            assert(requested_selection(config@.repos, only.drop_last()) == Ok::<
                Seq<Seq<char>>,
                SelectionFailure,
            >(Seq::empty()));
            if requested_selection(config@.repos, only) is Ok {
                let name = normalized(only.last())->Ok_0;
                assert(requested_selection(config@.repos, only) == Ok::<
                    Seq<Seq<char>>,
                    SelectionFailure,
                >(Seq::<Seq<char>>::empty().push(name)));
            }
        } else {
            assert(texts(wanted@) =~= Seq::<Seq<char>>::empty());
        }
    }
    match resolve_repos(config, wanted.as_slice(), use_active, false) {
        Ok(mut repos) => {
            let ghost names = texts(repos@);
            proof {
                assert(names.len() == 1);
            }
            match repos.pop() {
                Some(name) => {
                    proof {
                        assert(names[0] == name@);
                    }
                    Ok(name)
                },
                None => {
                    proof {
                        assert(false);
                    }
                    Err(SelectionError::NoRepositoriesSpecified)
                },
            }
        },
        Err(e) => Err(e),
    }
}

/// A selection that has failed after `n` requests ends as it stood there.
proof fn lemma_selection_stays_failed(registered: Seq<Seq<char>>, requested: Seq<Seq<char>>, n: int)
    requires
        0 <= n <= requested.len(),
        requested_selection(registered, requested.take(n)) is Err,
    ensures
        requested_selection(registered, requested) == requested_selection(
            registered,
            requested.take(n),
        ),
    decreases requested.len(),
{
    if n == requested.len() {
        assert(requested.take(n) =~= requested);
    } else {
        assert(requested.drop_last().take(n) =~= requested.take(n));
        lemma_selection_stays_failed(registered, requested.drop_last(), n);
    }
}

} // verus!
