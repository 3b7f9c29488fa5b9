//! What the remote source delivers, as plain values.

use vstd::prelude::*;
use vstd::string::*;
use crate::config::RepoError;
use crate::text::{
    chars_of, first_index, lemma_first_index_is, optional_text, texts, trim_window, trimmed,
    CharClass,
};
use crate::timestamp::Timestamp;

verus! {

/// The owner and the name of a repository.
#[derive(Clone, Debug)]
pub struct RepoSpec {
    pub owner: String,
    pub name: String,
}

/// The owner and the name that `repo` spells: what stands before and after
/// its first `/`, each without the white space around it, provided that
/// neither is empty.
pub open spec fn owner_and_name(repo: Seq<char>) -> Option<(Seq<char>, Seq<char>)> {
    if repo.contains('/') {
        let cut = first_index(repo, '/');
        let owner = trimmed(repo.take(cut), CharClass::WhiteSpace);
        let name = trimmed(repo.skip(cut + 1), CharClass::WhiteSpace);
        if owner.len() > 0 && name.len() > 0 {
            Some((owner, name))
        } else {
            None
        }
    } else {
        None
    }
}

impl RepoSpec {
    /// Splits `owner/name` at its first `/`.
    pub fn parse(repo: &str) -> (r: Result<RepoSpec, RepoError>)
        ensures
            match owner_and_name(repo@) {
                Some((owner, name)) => r matches Ok(spec) && spec.owner@ == owner && spec.name@
                    == name,
                None => r matches Err(e) && e == RepoError::Malformed,
            },
    {
        let chars = chars_of(repo);
        let mut cut: usize = 0;
        while cut < chars.len() && chars[cut] != '/'
            invariant
                cut <= chars.len(),
                forall|k: int| 0 <= k < cut ==> #[trigger] chars@[k] != '/',
            decreases chars.len() - cut,
        {
            cut += 1;
        }
        if cut == chars.len() {
            return Err(RepoError::Malformed);
        }
        proof {
            assert(repo@[cut as int] == '/');
            lemma_first_index_is(repo@, '/', cut as int);
            assert(repo@.take(cut as int) =~= chars@.subrange(0, cut as int));
            assert(repo@.skip(cut + 1) =~= chars@.subrange(cut + 1, chars.len() as int));
        }
        let owner = trim_window(&chars, 0, cut, CharClass::WhiteSpace);
        let name = trim_window(&chars, cut + 1, chars.len(), CharClass::WhiteSpace);
        if owner.0 == owner.1 || name.0 == name.1 {
            return Err(RepoError::Malformed);
        }
        Ok(
            RepoSpec {
                owner: repo.substring_char(owner.0, owner.1).to_owned(),
                name: repo.substring_char(name.0, name.1).to_owned(),
            },
        )
    }
}

/// Whether an issue is open.
#[derive(Clone, Copy, Debug, PartialEq, Eq, Structural)]
pub enum IssueState {
    Open,
    Closed,
    /// Any state that the remote source may add.
    Unknown,
}

impl IssueState {
    /// The word that is stored for the state.
    pub open spec fn word(self) -> Seq<char> {
        match self {
            IssueState::Open => "open"@,
            IssueState::Closed => "closed"@,
            IssueState::Unknown => "unknown"@,
        }
    }

    /// The word that is stored for the state.
    pub fn as_str(&self) -> (s: &'static str)
        ensures
            s@ == self.word(),
    {
        match self {
            IssueState::Open => "open",
            IssueState::Closed => "closed",
            IssueState::Unknown => "unknown",
        }
    }

    /// The state that a stored word stands for; any word but those of open
    /// and closed stands for the unknown state.
    pub open spec fn of_word(word: Seq<char>) -> IssueState {
        if word == IssueState::Open.word() {
            IssueState::Open
        } else if word == IssueState::Closed.word() {
            IssueState::Closed
        } else {
            IssueState::Unknown
        }
    }

    /// The state that a stored word stands for.
    pub fn from_word(word: &str) -> (state: IssueState)
        ensures
            state == IssueState::of_word(word@),
    {
        let word = word.to_owned();
        if word == String::from_str("open") {
            IssueState::Open
        } else if word == String::from_str("closed") {
            IssueState::Closed
        } else {
            IssueState::Unknown
        }
    }
}

/// An issue as the remote source describes it.
#[derive(Clone, Debug)]
pub struct RemoteIssue {
    /// The number under which users know the issue.
    pub number: u64,
    pub title: String,
    pub body: Option<String>,
    pub state: IssueState,
    /// The names of the labels, in the order of the remote source.
    pub labels: Vec<String>,
    /// When the issue was last changed at the remote source.
    pub updated_at: Timestamp,
}

/// What an issue holds, as plain values.
pub struct RemoteIssueView {
    pub number: u64,
    pub title: Seq<char>,
    pub body: Option<Seq<char>>,
    pub state: IssueState,
    pub labels: Seq<Seq<char>>,
    pub updated_at: Timestamp,
}

impl View for RemoteIssue {
    type V = RemoteIssueView;

    open spec fn view(&self) -> RemoteIssueView {
        RemoteIssueView {
            number: self.number,
            title: self.title@,
            body: optional_text(self.body),
            state: self.state,
            labels: texts(self.labels@),
            updated_at: self.updated_at,
        }
    }
}

/// A repository as the remote source lists it.
#[derive(Clone, Debug)]
pub struct RemoteRepo {
    /// `owner/name`, where the source gives it.
    pub full_name: Option<String>,
    /// The login of the owner, where the source gives it.
    pub owner: Option<String>,
    pub name: String,
}

impl RemoteRepo {
    /// The name under which the repository is registered: its full name; for
    /// want of that, owner and name joined by `/`; for want of an owner, the
    /// bare name.
    pub open spec fn label(self) -> Seq<char> {
        match self.full_name {
            Some(full) => full@,
            None => match self.owner {
                Some(owner) => owner@ + seq!['/'] + self.name@,
                None => self.name@,
            },
        }
    }

    /// The name under which the repository is registered.
    pub fn display_name(&self) -> (s: String)
        ensures
            s@ == self.label(),
    {
        match &self.full_name {
            Some(full) => full.clone(),
            None => match &self.owner {
                Some(owner) => {
                    proof {
                        reveal_strlit("/");
                        assert("/"@ =~= seq!['/']);
                    }
                    owner.clone().concat("/").concat(self.name.as_str())
                },
                None => self.name.clone(),
            },
        }
    }
}

/// The names under which `repos` are registered, in their order.
pub open spec fn labels_of(repos: Seq<RemoteRepo>) -> Seq<Seq<char>> {
    repos.map_values(|r: RemoteRepo| r.label())
}

/// The names under which the listed repositories are registered.
pub fn repo_names(repos: &Vec<RemoteRepo>) -> (names: Vec<String>)
    ensures
        texts(names@) == labels_of(repos@),
{
    let mut names: Vec<String> = Vec::new();
    let mut i: usize = 0;
    while i < repos.len()
        invariant
            i <= repos.len(),
            texts(names@) == labels_of(repos@.take(i as int)),
        decreases repos.len() - i,
    {
        let name = repos[i].display_name();
        proof {
            assert(repos@.take(i + 1) =~= repos@.take(i as int).push(repos@[i as int]));
            assert(texts(names@.push(name)) =~= texts(names@).push(name@));
            assert(labels_of(repos@.take(i + 1)) =~= labels_of(repos@.take(i as int)).push(
                repos@[i as int].label(),
            ));
        }
        names.push(name);
        i += 1;
    }
    proof {
        assert(repos@.take(i as int) =~= repos@);
    }
    names
}

} // verus!
