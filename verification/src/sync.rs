//! Keeping the cache in step with the remote source.
//!
//! Nothing here talks to the remote source. The functions decide what is to
//! be asked of it next and what becomes of the answer; their caller asks. A
//! full synchronization gathers the whole collection of a repository before
//! it writes the first row, so a traversal that fails leaves the store as it
//! was. A lookup is served from the store, and only an issue that the store
//! does not hold is asked of the remote source, written, and read back.

use vstd::prelude::*;
use vstd::string::*;
use crate::config::RepoError;
use crate::github::{owner_and_name, RemoteIssue, RemoteIssueView, RepoSpec};
use crate::pagination::{
    progress_after, FetchFailure, PageOutcome, PageRequest, Progress, RemoteFetchError, Step,
    Traversal,
};
use crate::storage::{
    issue_key, lemma_upserted, DocumentView, PersistenceError, Storage, StorageView,
    StoredIssueDetail,
};
use crate::text::{optional_text, texts};
use crate::timestamp::{rfc3339_instant, Timestamp};

verus! {

/// What a sequence of issues holds, as plain values.
pub open spec fn issue_views(issues: Seq<RemoteIssue>) -> Seq<RemoteIssueView> {
    issues.map_values(|i: RemoteIssue| i@)
}

/// How far the writing of a collection has come: the store, the number of
/// issues written, and the error that ended the writing, if one did.
pub struct CommitView {
    pub store: StorageView,
    pub done: nat,
    pub failure: Option<PersistenceError>,
}

/// The writing after one more issue, with `at` as what the clock gave when
/// its turn came. The clock is read first: without an instant the writing
/// ends there. An issue that the store can take is written at that instant;
/// the first that it cannot take ends the writing. What was written before
/// stays.
pub open spec fn commit_step(
    state: CommitView,
    repo: Seq<char>,
    issue: RemoteIssueView,
    at: Option<Timestamp>,
) -> CommitView {
    if state.failure is Some {
        state
    } else {
        match at {
            None => CommitView { failure: Some(PersistenceError::ClockUnavailable), ..state },
            Some(instant) => if state.store.contains(issue_key(repo, issue.number as nat))
                || state.store.has_room() {
                CommitView {
                    store: state.store.upserted(repo, issue, instant),
                    done: state.done + 1,
                    failure: None,
                }
            } else {
                CommitView { failure: Some(PersistenceError::IdentifiersExhausted), ..state }
            },
        }
    }
}

/// The writing of `issues`, one after the other, into `store`, the issue at
/// each place with what stands at the same place of `times`: the instant
/// that the clock gave for it, if it gave one.
pub open spec fn committed(
    store: StorageView,
    repo: Seq<char>,
    issues: Seq<RemoteIssueView>,
    times: Seq<Option<Timestamp>>,
) -> CommitView
    recommends
        times.len() == issues.len(),
    decreases issues.len(),
{
    if issues.len() == 0 {
        CommitView { store, done: 0, failure: None }
    } else {
        commit_step(
            committed(store, repo, issues.drop_last(), times.drop_last()),
            repo,
            issues.last(),
            times.last(),
        )
    }
}

/// A write that failed: how many issues were written before it, and why it
/// failed.
#[derive(Clone, Copy, Debug, PartialEq, Eq, Structural)]
pub struct CommitError {
    pub committed: usize,
    pub error: PersistenceError,
}

/// Whether the end of a writing is what `r` reports.
pub open spec fn reports(end: CommitView, total: nat, r: Result<usize, CommitError>) -> bool {
    match end.failure {
        None => r == Ok::<usize, CommitError>(total as usize) && end.done == total,
        Some(e) => r == Err::<usize, CommitError>(
            CommitError { committed: end.done as usize, error: e },
        ) && end.done < total,
    }
}

/// Writes every issue of `issues` into the store, each at the instant at
/// which its turn comes, and answers with their number. Whatever the clock
/// says, the store ends as [`committed`] makes it for what the clock gave.
/// Each write stands on its own: when one fails, for want of an identifier
/// or of an instant, the issues before it stay written, and the error tells
/// how many they were.
pub fn commit_issues(store: &mut Storage, repo: &str, issues: &Vec<RemoteIssue>) -> (r: Result<
    usize,
    CommitError,
>)
    requires
        old(store)@.wf(),
    ensures
        final(store)@.wf(),
        exists|times: Seq<Option<Timestamp>>|
            times.len() == issues.len() && final(store)@ == (#[trigger] committed(
                old(store)@,
                repo@,
                issue_views(issues@),
                times,
            )).store && reports(
                committed(old(store)@, repo@, issue_views(issues@), times),
                issues.len() as nat,
                r,
            ),
{
    let ghost all = issue_views(issues@);
    let ghost mut times: Seq<Option<Timestamp>> = Seq::empty();
    let mut i: usize = 0;
    while i < issues.len()
        invariant
            i <= issues.len(),
            store@.wf(),
            all == issue_views(issues@),
            times.len() == i,
            committed(old(store)@, repo@, all.take(i as int), times) == (CommitView {
                store: store@,
                done: i as nat,
                failure: None,
            }),
        decreases issues.len() - i,
    {
        let at = Timestamp::now();
        let ghost before = times;
        proof {
            times = times.push(at);
            assert(all.take(i + 1).drop_last() =~= all.take(i as int));
            assert(times.drop_last() =~= before);
            assert(all.take(i + 1).last() == issues@[i as int]@);
        }
        let written = match at {
            Some(instant) => store.upsert_issue_at(repo, &issues[i], instant),
            None => Err(PersistenceError::ClockUnavailable),
        };
        match written {
            Ok(()) => {},
            Err(error) => {
                proof {
                    let rest = Seq::new((issues.len() - i - 1) as nat, |k: int| at);
                    let whole = times + rest;
                    assert(whole.take(i + 1) =~= times);
                    lemma_commit_stays_failed(old(store)@, repo@, all, whole, i + 1);
                }
                return Err(CommitError { committed: i, error });
            },
        }
        i += 1;
    }
    proof {
        assert(all.take(i as int) =~= all);
    }
    Ok(i)
}

/// A writing that has failed after `n` issues ends as it stood there.
proof fn lemma_commit_stays_failed(
    store: StorageView,
    repo: Seq<char>,
    issues: Seq<RemoteIssueView>,
    times: Seq<Option<Timestamp>>,
    n: int,
)
    requires
        0 <= n <= issues.len(),
        times.len() == issues.len(),
        committed(store, repo, issues.take(n), times.take(n)).failure is Some,
    ensures
        committed(store, repo, issues, times) == committed(
            store,
            repo,
            issues.take(n),
            times.take(n),
        ),
    decreases issues.len(),
{
    if n == issues.len() {
        assert(issues.take(n) =~= issues);
        assert(times.take(n) =~= times);
    } else {
        assert(issues.drop_last().take(n) =~= issues.take(n));
        assert(times.drop_last().take(n) =~= times.take(n));
        lemma_commit_stays_failed(store, repo, issues.drop_last(), times.drop_last(), n);
    }
}

/// A writing keeps the store well formed, and one that did not fail has
/// written every issue: the store holds each of them afterwards, so a lookup
/// of any of them is served from the store.
pub proof fn lemma_committed_issues_are_cached(
    store: StorageView,
    repo: Seq<char>,
    issues: Seq<RemoteIssueView>,
    times: Seq<Option<Timestamp>>,
)
    requires
        store.wf(),
        times.len() == issues.len(),
    ensures
        committed(store, repo, issues, times).store.wf(),
        committed(store, repo, issues, times).failure is None ==> forall|k: int|
            0 <= k < issues.len() ==> committed(store, repo, issues, times).store.lookup(
                issue_key(repo, (#[trigger] issues[k]).number as nat),
            ) is Some,
    decreases issues.len(),
{
    if issues.len() > 0 {
        let front = committed(store, repo, issues.drop_last(), times.drop_last());
        let end = committed(store, repo, issues, times);
        lemma_committed_issues_are_cached(store, repo, issues.drop_last(), times.drop_last());
        if times.last() is Some {
            lemma_upserted(front.store, repo, issues.last(), times.last()->0);
        }
        if end.failure is None {
            assert forall|k: int| 0 <= k < issues.len() implies end.store.contains(
                issue_key(repo, (#[trigger] issues[k]).number as nat),
            ) by {
                let key = issue_key(repo, issues[k].number as nat);
                let last_key = issue_key(repo, issues.last().number as nat);
                if k < issues.len() - 1 {
                    assert(issues.drop_last()[k] == issues[k]);
                    assert(front.store.contains(key));
                    if key != last_key {
                        assert(end.store.lookup(key) == front.store.lookup(key));
                    }
                }
            }
        }
    }
}

/// What a lookup does next.
#[derive(Debug)]
pub enum ViewStep {
    /// The store holds the issue: this is its detail, and the remote source
    /// is not asked.
    Cached(StoredIssueDetail),
    /// The store does not hold the issue: the issue of this number is to be
    /// fetched, once, and handed to [`finish_view`].
    Fetch(u64),
}

/// Why a lookup failed.
#[derive(Debug)]
pub enum ViewError {
    /// The issue could not be fetched.
    Remote(RemoteFetchError),
    /// The fetched issue could not be written.
    Persistence(PersistenceError),
}

/// Whether `detail` is what the store shows of `row`.
pub open spec fn reads(detail: StoredIssueDetail, row: DocumentView) -> bool {
    detail.shows(row, detail.updated_at) && detail.dated_by(row)
}

/// Looks the issue `number` of `repo` up in the store. A cached issue is
/// answered from the store alone; only an issue that the store does not hold
/// is to be fetched. The one reading that can fail is that of a row whose
/// stored text spells no instant, when the clock gives none either.
pub fn begin_view(store: &Storage, repo: &str, number: u64) -> (r: Result<
    ViewStep,
    PersistenceError,
>)
    requires
        store@.wf(),
    ensures
        match store@.lookup(issue_key(repo@, number as nat)) {
            Some(row) => match r {
                Ok(step) => step matches ViewStep::Cached(detail) && reads(detail, row),
                Err(e) => e == PersistenceError::ClockUnavailable && rfc3339_instant(
                    row.updated_at,
                ) is None,
            },
            None => r matches Ok(ViewStep::Fetch(n)) && n == number,
        },
{
    match store.get_issue(repo, number) {
        Ok(Some(detail)) => Ok(ViewStep::Cached(detail)),
        Ok(None) => Ok(ViewStep::Fetch(number)),
        Err(e) => Err(e),
    }
}

/// Ends a lookup that had to fetch, as at the instant `now`. A fetch that
/// failed, for the cause given, fails the lookup and leaves the store as it
/// was. A fetched issue is written into the store at that instant; where the
/// store cannot take it, the lookup fails and the store stays as it was.
/// After the write the answer is read back from the store, so that it shows
/// what was persisted: the row of the number that was asked for, or nothing
/// where the store holds no such row even now.
pub fn finish_view_at(
    store: &mut Storage,
    repo: &str,
    number: u64,
    fetched: Result<RemoteIssue, String>,
    now: Timestamp,
) -> (r: Result<Option<StoredIssueDetail>, ViewError>)
    requires
        old(store)@.wf(),
    ensures
        final(store)@.wf(),
        match fetched {
            Err(cause) => {
                &&& final(store)@ == old(store)@
                &&& r matches Err(ViewError::Remote(e)) && e@ == FetchFailure::Item(
                    number as nat,
                    cause@,
                )
            },
            Ok(issue) => {
                &&& final(store)@ == old(store)@.upserted(repo@, issue@, now)
                &&& if old(store)@.contains(issue_key(repo@, issue.number as nat)) || old(
                    store,
                )@.has_room() {
                    r matches Ok(found) && match final(store)@.lookup(
                        issue_key(repo@, number as nat),
                    ) {
                        Some(row) => found matches Some(detail) && detail.reads_at(row, now),
                        None => found is None,
                    }
                } else {
                    r matches Err(ViewError::Persistence(e)) && e
                        == PersistenceError::IdentifiersExhausted
                }
            },
        },
{
    match fetched {
        Err(cause) => Err(ViewError::Remote(RemoteFetchError::Item(number, cause))),
        Ok(issue) => {
            match store.upsert_issue_at(repo, &issue, now) {
                Ok(()) => Ok(store.get_issue_at(repo, number, now)),
                Err(e) => Err(ViewError::Persistence(e)),
            }
        },
    }
}

/// Ends a lookup that had to fetch. A fetch that failed fails the lookup and
/// leaves the store as it was, and the clock is not read. For a fetched
/// issue the clock is read once; where it gives no instant, the lookup fails
/// and the store stays as it was. Whatever instant it gives, the lookup ends
/// as [`finish_view_at`] ends it at that instant.
pub fn finish_view(
    store: &mut Storage,
    repo: &str,
    number: u64,
    fetched: Result<RemoteIssue, String>,
) -> (r: Result<Option<StoredIssueDetail>, ViewError>)
    requires
        old(store)@.wf(),
    ensures
        final(store)@.wf(),
        match fetched {
            Err(cause) => {
                &&& final(store)@ == old(store)@
                &&& r matches Err(ViewError::Remote(e)) && e@ == FetchFailure::Item(
                    number as nat,
                    cause@,
                )
            },
            Ok(issue) => match r {
                Ok(found) => {
                    &&& old(store)@.contains(issue_key(repo@, issue.number as nat)) || old(
                        store,
                    )@.has_room()
                    &&& exists|now: Timestamp|
                        {
                            &&& final(store)@ == #[trigger] old(store)@.upserted(
                                repo@,
                                issue@,
                                now,
                            )
                            &&& match final(store)@.lookup(issue_key(repo@, number as nat)) {
                                Some(row) => found matches Some(detail) && detail.reads_at(
                                    row,
                                    now,
                                ),
                                None => found is None,
                            }
                        }
                },
                Err(ViewError::Persistence(PersistenceError::IdentifiersExhausted)) => {
                    &&& final(store)@ == old(store)@
                    &&& !old(store)@.contains(issue_key(repo@, issue.number as nat))
                    &&& !old(store)@.has_room()
                },
                Err(ViewError::Persistence(PersistenceError::ClockUnavailable)) => final(store)@
                    == old(store)@,
                Err(ViewError::Remote(_)) => false,
            },
        },
{
    match fetched {
        Err(cause) => Err(ViewError::Remote(RemoteFetchError::Item(number, cause))),
        Ok(issue) => match Timestamp::now() {
            Some(now) => {
                proof {
                    lemma_upserted(store@, repo@, issue@, now);
                }
                finish_view_at(store, repo, number, Ok(issue), now)
            },
            None => Err(ViewError::Persistence(PersistenceError::ClockUnavailable)),
        },
    }
}

/// A lookup heals the cache: where the issue that was fetched bears the
/// number that was asked for, and the store can take it, the store holds the
/// issue afterwards, so the lookup has an answer and the next lookup is
/// served from the store.
pub proof fn lemma_view_heals(
    s: StorageView,
    repo: Seq<char>,
    issue: RemoteIssueView,
    at: Timestamp,
)
    requires
        s.wf(),
        s.contains(issue_key(repo, issue.number as nat)) || s.has_room(),
    ensures
        s.upserted(repo, issue, at).wf(),
        s.upserted(repo, issue, at).lookup(issue_key(repo, issue.number as nat)) is Some,
{
    lemma_upserted(s, repo, issue, at);
}

/// Two readings of one row agree: in number, title and body always, and in
/// the instant of the last remote change wherever the stored text of the row
/// spells an instant.
pub proof fn lemma_readings_agree(row: DocumentView, a: StoredIssueDetail, b: StoredIssueDetail)
    requires
        reads(a, row),
        reads(b, row),
    ensures
        a.number == b.number,
        a.title@ == b.title@,
        optional_text(a.body) == optional_text(b.body),
        rfc3339_instant(row.updated_at) is Some ==> a.updated_at == b.updated_at,
{
    if rfc3339_instant(row.updated_at) is Some {
        a.updated_at.lemma_same_numbers(b.updated_at);
    }
}

/// Two readings of one row at one instant agree in everything: number,
/// title, body, and the instant of the last remote change, whether the
/// stored text of the row spells an instant or not.
pub proof fn lemma_readings_at_agree(
    row: DocumentView,
    a: StoredIssueDetail,
    b: StoredIssueDetail,
    now: Timestamp,
)
    requires
        a.reads_at(row, now),
        b.reads_at(row, now),
    ensures
        a.number == b.number,
        a.title@ == b.title@,
        optional_text(a.body) == optional_text(b.body),
        a.updated_at == b.updated_at,
{
    if rfc3339_instant(row.updated_at) is Some {
        a.updated_at.lemma_same_numbers(b.updated_at);
    }
}

/// Why the synchronization of a repository failed.
#[derive(Debug)]
pub enum SyncError {
    /// The name of the repository is not of the form `owner/name`.
    Repo(RepoError),
    /// The collection could not be fetched. The store was not touched.
    Remote(RemoteFetchError),
    /// A write failed. The issues before it stay written.
    Persistence(CommitError),
}

/// A failed synchronization, as plain values.
pub enum SyncFailure {
    Repo(RepoError),
    Remote(FetchFailure),
    Persistence(CommitError),
}

impl View for SyncError {
    type V = SyncFailure;

    open spec fn view(&self) -> SyncFailure {
        match *self {
            SyncError::Repo(e) => SyncFailure::Repo(e),
            SyncError::Remote(e) => SyncFailure::Remote(e@),
            SyncError::Persistence(e) => SyncFailure::Persistence(e),
        }
    }
}

/// How the synchronization of one repository ended: with the number of
/// issues cached, or with the failure.
#[derive(Debug)]
pub struct RepoOutcome {
    pub repo: String,
    pub result: Result<usize, SyncError>,
}

/// An outcome, as plain values.
pub struct RepoOutcomeView {
    pub repo: Seq<char>,
    pub result: Result<usize, SyncFailure>,
}

impl View for RepoOutcome {
    type V = RepoOutcomeView;

    open spec fn view(&self) -> RepoOutcomeView {
        RepoOutcomeView {
            repo: self.repo@,
            result: match self.result {
                Ok(n) => Ok(n),
                Err(e) => Err(e@),
            },
        }
    }
}

/// The outcomes as plain values.
pub open spec fn outcome_views(outcomes: Seq<RepoOutcome>) -> Seq<RepoOutcomeView> {
    outcomes.map_values(|o: RepoOutcome| o@)
}

/// How a repository ends whose issues were written as `end` tells.
pub open spec fn outcome_of(end: CommitView) -> Result<usize, SyncFailure> {
    match end.failure {
        None => Ok(end.done as usize),
        Some(error) => Err(
            SyncFailure::Persistence(CommitError { committed: end.done as usize, error }),
        ),
    }
}

/// What the caller of a synchronization does next.
#[derive(Debug)]
pub enum SyncAction {
    /// Ask the remote source for the page that `request` names of the issues
    /// of `repo`, and advance the run by what comes back.
    Fetch { repo: String, spec: RepoSpec, request: PageRequest },
    /// Every repository was dealt with.
    Finish,
}

/// Where a run over several repositories stands: the repositories, the place
/// of the one being fetched, what was gathered of it, and how the ones before
/// it ended.
pub struct RunView {
    pub repos: Seq<Seq<char>>,
    pub position: int,
    pub items: Seq<RemoteIssue>,
    pub started: bool,
    pub outcomes: Seq<RepoOutcomeView>,
}

impl RunView {
    /// The invariant of a run: there is an outcome for each repository before
    /// the present one, the present one has an owner and a name, and a run
    /// that is over holds no items.
    pub open spec fn wf(self) -> bool {
        &&& 0 <= self.position <= self.repos.len()
        &&& self.outcomes.len() == self.position
        &&& self.position < self.repos.len() ==> owner_and_name(self.repos[self.position]) is Some
        &&& self.position == self.repos.len() ==> self.items.len() == 0 && !self.started
    }

    /// Whether the run waits for a page.
    pub open spec fn awaiting(self) -> bool {
        self.position < self.repos.len()
    }

    /// The run, moved on to the first repository from the present place on
    /// that has an owner and a name; each one passed over ends as malformed.
    pub open spec fn settled(self) -> RunView
        decreases self.repos.len() - self.position,
    {
        if self.position < 0 || self.position >= self.repos.len() || owner_and_name(
            self.repos[self.position],
        ) is Some {
            self
        } else {
            (RunView {
                position: self.position + 1,
                outcomes: self.outcomes.push(
                    RepoOutcomeView {
                        repo: self.repos[self.position],
                        result: Err(SyncFailure::Repo(RepoError::Malformed)),
                    },
                ),
                ..self
            }).settled()
        }
    }

    /// The run after the present repository ended with `result`: the outcome
    /// is recorded, nothing is held of the repository any more, and the run
    /// has moved on. A failure of one repository does not keep the run from
    /// the next.
    pub open spec fn concluded(self, result: Result<usize, SyncFailure>) -> RunView {
        (RunView {
            position: self.position + 1,
            items: Seq::empty(),
            started: false,
            outcomes: self.outcomes.push(
                RepoOutcomeView { repo: self.repos[self.position], result },
            ),
            ..self
        }).settled()
    }

    /// The run with one more page gathered of the present repository.
    pub open spec fn gathered(self, items: Seq<RemoteIssue>) -> RunView {
        RunView { items, started: true, ..self }
    }
}

/// Whether `action` is what the run `run` asks for, `token` being the
/// continuation token it holds, if it holds one: the next page of the
/// present repository, or the end.
pub open spec fn asks(run: RunView, token: Option<Seq<char>>, action: SyncAction) -> bool {
    if run.awaiting() {
        &&& action matches SyncAction::Fetch { repo, spec, request }
        &&& repo@ == run.repos[run.position]
        &&& owner_and_name(repo@) == Some((spec.owner@, spec.name@))
        &&& match token {
            Some(t) => request matches PageRequest::Next(next) && next@ == t,
            None => request is First,
        }
    } else {
        action is Finish
    }
}

/// Whether a run that waited for a page, standing at `before` with the store
/// at `store_before`, has come to `after` and `store_after` by `outcome`, and
/// asks for `action`.
///
/// A page with a continuation token is gathered, and the page behind the
/// token is asked for; the store stays as it was. A failure ends the present
/// repository with the failure, and the store stays as it was. The last page
/// completes the collection: the store is what the writing of all the
/// gathered issues makes of it, for what the clock gave, and the repository ends as
/// that writing did.
pub open spec fn advanced(
    before: RunView,
    store_before: StorageView,
    outcome: PageOutcome<RemoteIssue>,
    after: RunView,
    store_after: StorageView,
    action: SyncAction,
) -> bool {
    match progress_after(before.items, before.started, outcome) {
        Progress::Wanting { items, token } => {
            &&& store_after == store_before
            &&& after == before.gathered(items)
            &&& asks(after, Some(token), action)
        },
        Progress::Failed(failure) => {
            &&& store_after == store_before
            &&& after == before.concluded(Err(SyncFailure::Remote(failure)))
            &&& asks(after, None, action)
        },
        Progress::Complete(items) => {
            &&& asks(after, None, action)
            &&& exists|times: Seq<Option<Timestamp>>|
                {
                    &&& times.len() == items.len()
                    &&& store_after == (#[trigger] committed(
                        store_before,
                        before.repos[before.position],
                        issue_views(items),
                        times,
                    )).store
                    &&& after == before.concluded(
                        outcome_of(
                            committed(
                                store_before,
                                before.repos[before.position],
                                issue_views(items),
                                times,
                            ),
                        ),
                    )
                }
        },
    }
}

/// A full synchronization of several repositories, one after the other.
#[derive(Debug)]
pub struct SyncRun {
    repos: Vec<String>,
    position: usize,
    traversal: Traversal<RemoteIssue>,
    outcomes: Vec<RepoOutcome>,
}

impl View for SyncRun {
    type V = RunView;

    closed spec fn view(&self) -> RunView {
        RunView {
            repos: texts(self.repos@),
            position: self.position as int,
            items: self.traversal.items(),
            started: self.traversal.started(),
            outcomes: outcome_views(self.outcomes@),
        }
    }
}

impl SyncRun {
    /// Moves on to the first repository from the present place on that has
    /// an owner and a name, and asks for its first page.
    fn settle(self) -> (r: (SyncRun, SyncAction))
        requires
            self@.position <= self@.repos.len(),
            self@.outcomes.len() == self@.position,
            self@.items.len() == 0,
            !self@.started,
        ensures
            r.0@ == self@.settled(),
            r.0@.wf(),
            asks(r.0@, None, r.1),
    {
        let mut run = self;
        while run.position < run.repos.len()
            invariant
                run@.position <= run@.repos.len(),
                run@.outcomes.len() == run@.position,
                run@.items.len() == 0,
                !run@.started,
                run@.settled() == self@.settled(),
            decreases run.repos.len() - run.position,
        {
            let ghost before = run@;
            let repo = run.repos[run.position].clone();
            proof {
                assert(before.repos[before.position] == repo@);
            }
            match RepoSpec::parse(repo.as_str()) {
                Ok(spec) => {
                    return (run, SyncAction::Fetch { repo, spec, request: PageRequest::First });
                },
                Err(e) => {
                    let outcome = RepoOutcome { repo, result: Err(SyncError::Repo(e)) };
                    proof {
                        assert(outcome_views(run.outcomes@.push(outcome)) =~= outcome_views(
                            run.outcomes@,
                        ).push(outcome@));
                    }
                    run.outcomes.push(outcome);
                    run.position = run.position + 1;
                },
            }
        }
        (run, SyncAction::Finish)
    }

    /// A run over `repos`, in their order, and what it asks for first.
    pub fn start(repos: Vec<String>) -> (r: (SyncRun, SyncAction))
        ensures
            r.0@ == (RunView {
                repos: texts(repos@),
                position: 0,
                items: Seq::empty(),
                started: false,
                outcomes: Seq::empty(),
            }).settled(),
            r.0@.wf(),
            asks(r.0@, None, r.1),
    {
        let (traversal, _) = Traversal::begin();
        let run = SyncRun { repos, position: 0, traversal, outcomes: Vec::new() };
        proof {
            assert(run@.outcomes =~= Seq::empty());
            assert(run@.items =~= Seq::empty());
        }
        run.settle()
    }

    /// How the repositories that were dealt with ended.
    pub fn outcomes(&self) -> (outcomes: &[RepoOutcome])
        ensures
            outcome_views(outcomes@) == self@.outcomes,
    {
        self.outcomes.as_slice()
    }

    /// Ends the present repository with `result` and moves on.
    fn conclude(self, result: Result<usize, SyncError>) -> (r: (SyncRun, SyncAction))
        requires
            self@.wf(),
            self@.awaiting(),
        ensures
            r.0@ == self@.concluded(
                match result {
                    Ok(n) => Ok(n),
                    Err(e) => Err(e@),
                },
            ),
            r.0@.wf(),
            asks(r.0@, None, r.1),
    {
        let mut run = self;
        let repo = run.repos[run.position].clone();
        let outcome = RepoOutcome { repo, result };
        proof {
            assert(outcome_views(run.outcomes@.push(outcome)) =~= outcome_views(
                run.outcomes@,
            ).push(outcome@));
        }
        run.outcomes.push(outcome);
        proof {
            assert(run.position < run.repos.len());
        }
        run.position = run.position + 1;
        let (traversal, _) = Traversal::begin();
        run.traversal = traversal;
        proof {
            assert(run@.items =~= Seq::empty());
        }
        run.settle()
    }

    /// Takes in what the request for a page came back with.
    ///
    /// A page with a continuation token is gathered, and the page behind the
    /// token is asked for; the store is not touched. A failure ends the
    /// present repository with the failure, and the store is not touched:
    /// nothing of a collection that did not arrive whole is written. The last
    /// page completes the collection: every issue gathered is written into
    /// the store, as by [`commit_issues`], and the repository ends with their
    /// number, or with the write that failed. Whichever way the repository
    /// ended, the run moves on to the next. A run that is over stays as it
    /// is.
    pub fn advance(self, store: &mut Storage, outcome: PageOutcome<RemoteIssue>) -> (r: (
        SyncRun,
        SyncAction,
    ))
        requires
            self@.wf(),
            old(store)@.wf(),
        ensures
            r.0@.wf(),
            final(store)@.wf(),
            !self@.awaiting() ==> r.0@ == self@ && r.1 is Finish && final(store)@ == old(store)@,
            self@.awaiting() ==> advanced(self@, old(store)@, outcome, r.0@, final(store)@, r.1),
    {
        if self.position >= self.repos.len() {
            return (self, SyncAction::Finish);
        }
        let ghost before = self@;
        let mut run = self;
        let (fresh, _) = Traversal::begin();
        let mut traversal = fresh;
        std::mem::swap(&mut traversal, &mut run.traversal);
        match traversal.advance(outcome) {
            Step::Fetch(next, request) => {
                run.traversal = next;
                let repo = run.repos[run.position].clone();
                proof {
                    assert(before.repos[before.position] == repo@);
                }
                proof {
                    assert(progress_after(before.items, before.started, outcome) is Wanting);
                    assert(run@ == before.gathered(next.items()));
                    assert(owner_and_name(repo@) is Some);
                }
                match RepoSpec::parse(repo.as_str()) {
                    Ok(spec) => {
                        let action = SyncAction::Fetch { repo, spec, request };
                        proof {
                            assert(advanced(before, old(store)@, outcome, run@, store@, action));
                        }
                        (run, action)
                    },
                    Err(_) => {
                        proof {
                            assert(false);
                        }
                        (run, SyncAction::Finish)
                    },
                }
            },
            Step::Failed(e) => {
                proof {
                    assert(progress_after(before.items, before.started, outcome)
                        == Progress::<RemoteIssue>::Failed(e@));
                    assert(run@.concluded(Err(SyncFailure::Remote(e@))) == before.concluded(
                        Err(SyncFailure::Remote(e@)),
                    ));
                }
                let r = run.conclude(Err(SyncError::Remote(e)));
                proof {
                    assert(advanced(before, old(store)@, outcome, r.0@, store@, r.1));
                }
                r
            },
            Step::Done(items) => {
                let repo = run.repos[run.position].clone();
                proof {
                    assert(before.repos[before.position] == repo@);
                }
                let result = commit_issues(store, repo.as_str(), &items);
                let ghost reported = result;
                let result = match result {
                    Ok(n) => Ok(n),
                    Err(e) => Err(SyncError::Persistence(e)),
                };
                let r = run.conclude(result);
                proof {
                    let times = choose|times: Seq<Option<Timestamp>>|
                        times.len() == items.len() && store@ == (#[trigger] committed(
                            old(store)@,
                            repo@,
                            issue_views(items@),
                            times,
                        )).store && reports(
                            committed(old(store)@, repo@, issue_views(items@), times),
                            items.len() as nat,
                            reported,
                        );
                    let end = committed(
                        old(store)@,
                        before.repos[before.position],
                        issue_views(items@),
                        times,
                    );
                    assert(store@ == end.store);
                    assert(r.0@ == before.concluded(outcome_of(end)));
                    assert(progress_after(before.items, before.started, outcome)
                        == Progress::Complete(items@));
                    assert(exists|times: Seq<Option<Timestamp>>|
                        {
                            &&& times.len() == items@.len()
                            &&& store@ == (#[trigger] committed(
                                old(store)@,
                                before.repos[before.position],
                                issue_views(items@),
                                times,
                            )).store
                            &&& r.0@ == before.concluded(
                                outcome_of(
                                    committed(
                                        old(store)@,
                                        before.repos[before.position],
                                        issue_views(items@),
                                        times,
                                    ),
                                ),
                            )
                        });
                    assert(advanced(before, old(store)@, outcome, r.0@, store@, r.1));
                }
                r
            },
        }
    }
}

} // verus!
