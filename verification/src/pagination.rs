//! Walking a remote collection that is delivered one page at a time.
//!
//! The traversal decides; its caller performs the requests. It starts with
//! [`Traversal::begin`], asks for the page that the request names, and hands
//! what came back to [`Traversal::advance`], until that answers with the whole
//! collection or with the failure. Items are handed out only at the end: a
//! traversal that fails gives none of what it had gathered.

use vstd::prelude::*;
use vstd::string::*;
use crate::text::{decimal_text, to_decimal};

verus! {

/// One page of a remote collection.
#[derive(Debug)]
pub struct Page<T> {
    /// The items of the page, in the order of the source.
    pub items: Vec<T>,
    /// The token that leads to the following page; `None` on the last page.
    pub next: Option<String>,
}

/// What a request for a page came back with.
#[derive(Debug)]
pub enum PageOutcome<T> {
    /// The page arrived.
    Delivered(Page<T>),
    /// The source answered, but with no page.
    Missing,
    /// The request failed, for the cause given.
    Failed(String),
}

/// The page to ask for.
#[derive(Debug)]
pub enum PageRequest {
    /// The first page of the collection.
    First,
    /// The page behind a continuation token.
    Next(String),
}

/// Why a remote collection or item could not be fetched.
#[derive(Debug)]
pub enum RemoteFetchError {
    /// The request for the first page failed, for the cause given.
    FirstPage(String),
    /// The request for a following page failed, for the cause given.
    NextPage(String),
    /// A continuation token led to no page.
    MissingPage,
    /// The request for the item of this number failed, for the cause given.
    Item(u64, String),
}

/// A failure, as plain values.
pub enum FetchFailure {
    FirstPage(Seq<char>),
    NextPage(Seq<char>),
    MissingPage,
    Item(nat, Seq<char>),
}

impl View for RemoteFetchError {
    type V = FetchFailure;

    open spec fn view(&self) -> FetchFailure {
        match *self {
            RemoteFetchError::FirstPage(cause) => FetchFailure::FirstPage(cause@),
            RemoteFetchError::NextPage(cause) => FetchFailure::NextPage(cause@),
            RemoteFetchError::MissingPage => FetchFailure::MissingPage,
            RemoteFetchError::Item(number, cause) => FetchFailure::Item(number as nat, cause@),
        }
    }
}

impl FetchFailure {
    /// The message shown for the failure to fetch a collection of `what`.
    pub open spec fn message_text(self, what: Seq<char>) -> Seq<char> {
        match self {
            FetchFailure::FirstPage(cause) => "failed to fetch "@ + what + ": "@ + cause,
            FetchFailure::NextPage(cause) => "failed to fetch next "@ + what + " page: "@ + cause,
            FetchFailure::MissingPage => "missing "@ + what + " page"@,
            FetchFailure::Item(number, cause) => "failed to fetch issue #"@ + decimal_text(number)
                + ": "@ + cause,
        }
    }
}

impl RemoteFetchError {
    /// The message shown for the error; `what` names the collection that was
    /// being fetched, such as `issues`.
    pub fn message(&self, what: &str) -> (m: String)
        ensures
            m@ == self@.message_text(what@),
    {
        match self {
            RemoteFetchError::FirstPage(cause) => String::from_str("failed to fetch ").concat(
                what,
            ).concat(": ").concat(cause.as_str()),
            RemoteFetchError::NextPage(cause) => String::from_str("failed to fetch next ").concat(
                what,
            ).concat(" page: ").concat(cause.as_str()),
            RemoteFetchError::MissingPage => String::from_str("missing ").concat(what).concat(
                " page",
            ),
            RemoteFetchError::Item(number, cause) => String::from_str(
                "failed to fetch issue #",
            ).concat(to_decimal(*number).as_str()).concat(": ").concat(cause.as_str()),
        }
    }
}

/// Where a traversal stands after an outcome.
pub enum Progress<T> {
    /// It holds `items` and wants the page behind `token`.
    Wanting { items: Seq<T>, token: Seq<char> },
    /// It is complete, with these items.
    Complete(Seq<T>),
    /// It has failed; no item is handed out.
    Failed(FetchFailure),
}

/// Where a traversal that holds `items` stands after `outcome`; `started`
/// tells whether a page was delivered before.
pub open spec fn progress_after<T>(items: Seq<T>, started: bool, outcome: PageOutcome<T>) -> Progress<
    T,
> {
    match outcome {
        PageOutcome::Delivered(page) => match page.next {
            Some(token) => Progress::Wanting { items: items + page.items@, token: token@ },
            None => Progress::Complete(items + page.items@),
        },
        PageOutcome::Missing => Progress::Failed(FetchFailure::MissingPage),
        PageOutcome::Failed(cause) => if started {
            Progress::Failed(FetchFailure::NextPage(cause@))
        } else {
            Progress::Failed(FetchFailure::FirstPage(cause@))
        },
    }
}

/// Where a traversal that holds `items` stands once it has met `outcomes`,
/// one after the other. Outcomes that follow its end are not looked at. A
/// traversal that has met no outcome wants its next page still; its token is
/// of no account and stands empty here.
pub open spec fn progress_through<T>(
    items: Seq<T>,
    started: bool,
    outcomes: Seq<PageOutcome<T>>,
) -> Progress<T>
    decreases outcomes.len(),
{
    if outcomes.len() == 0 {
        Progress::Wanting { items, token: Seq::empty() }
    } else {
        match progress_after(items, started, outcomes[0]) {
            Progress::Wanting { items: gathered, token } => if outcomes.len() == 1 {
                Progress::Wanting { items: gathered, token }
            } else {
                progress_through(gathered, true, outcomes.drop_first())
            },
            end => end,
        }
    }
}

/// The items of `pages`, page after page.
pub open spec fn items_of<T>(pages: Seq<Page<T>>) -> Seq<T>
    decreases pages.len(),
{
    if pages.len() == 0 {
        Seq::empty()
    } else {
        pages[0].items@ + items_of(pages.drop_first())
    }
}

/// The outcomes of requests that delivered `pages`.
pub open spec fn delivered<T>(pages: Seq<Page<T>>) -> Seq<PageOutcome<T>> {
    pages.map_values(|p: Page<T>| PageOutcome::Delivered(p))
}

/// Whether `pages` form one collection: each page but the last one carries a
/// continuation token, and the last one carries none.
pub open spec fn chained<T>(pages: Seq<Page<T>>) -> bool {
    &&& pages.len() > 0
    &&& forall|i: int| 0 <= i < pages.len() - 1 ==> (#[trigger] pages[i]).next is Some
    &&& pages.last().next is None
}

/// Whether every one of `pages` carries a continuation token.
pub open spec fn all_continue<T>(pages: Seq<Page<T>>) -> bool {
    forall|i: int| 0 <= i < pages.len() ==> (#[trigger] pages[i]).next is Some
}

/// A traversal under way: the items gathered so far.
#[derive(Debug)]
pub struct Traversal<T> {
    collected: Vec<T>,
    started: bool,
}

/// What the caller of a traversal does next.
#[derive(Debug)]
pub enum Step<T> {
    /// Ask for the page that the request names, and advance the traversal
    /// by what comes back.
    Fetch(Traversal<T>, PageRequest),
    /// The collection is complete: these are its items, in the order of the
    /// source.
    Done(Vec<T>),
    /// The traversal has failed.
    Failed(RemoteFetchError),
}

impl<T> Step<T> {
    /// Where the traversal stands.
    pub open spec fn progress(self) -> Progress<T> {
        match self {
            Step::Fetch(traversal, request) => Progress::Wanting {
                items: traversal.items(),
                token: match request {
                    PageRequest::First => Seq::empty(),
                    PageRequest::Next(token) => token@,
                },
            },
            Step::Done(items) => Progress::Complete(items@),
            Step::Failed(e) => Progress::Failed(e@),
        }
    }
}

impl<T> Traversal<T> {
    /// The items gathered so far.
    pub closed spec fn items(&self) -> Seq<T> {
        self.collected@
    }

    /// Whether a page was delivered already.
    pub closed spec fn started(&self) -> bool {
        self.started
    }

    /// A traversal that has gathered nothing, and the request for its first
    /// page.
    pub fn begin() -> (r: (Traversal<T>, PageRequest))
        ensures
            r.0.items() == Seq::<T>::empty(),
            !r.0.started(),
            r.1 is First,
    {
        (Traversal { collected: Vec::new(), started: false }, PageRequest::First)
    }

    /// Takes in what a request came back with. A page is added behind the
    /// items gathered so far; its token, if it has one, is asked for next,
    /// and without one the collection is complete. Any other outcome ends the
    /// traversal with the failure.
    pub fn advance(self, outcome: PageOutcome<T>) -> (step: Step<T>)
        ensures
            step.progress() == progress_after(self.items(), self.started(), outcome),
            step matches Step::Fetch(t, request) ==> t.started() && request is Next,
    {
        let mut collected = self.collected;
        match outcome {
            PageOutcome::Delivered(page) => {
                let mut items = page.items;
                collected.append(&mut items);
                match page.next {
                    Some(token) => Step::Fetch(
                        Traversal { collected, started: true },
                        PageRequest::Next(token),
                    ),
                    None => Step::Done(collected),
                }
            },
            PageOutcome::Missing => Step::Failed(RemoteFetchError::MissingPage),
            PageOutcome::Failed(cause) => if self.started {
                Step::Failed(RemoteFetchError::NextPage(cause))
            } else {
                Step::Failed(RemoteFetchError::FirstPage(cause))
            },
        }
    }
}

/// A collection that arrives in pages is gathered whole and in order: once
/// every page of a chain was delivered, the traversal is complete with the
/// items of all the pages, page after page, behind what it held before.
pub proof fn lemma_traversal_gathers_all<T>(items: Seq<T>, started: bool, pages: Seq<Page<T>>)
    requires
        chained(pages),
    ensures
        progress_through(items, started, delivered(pages)) == Progress::Complete(
            items + items_of(pages),
        ),
    decreases pages.len(),
{
    let outcomes = delivered(pages);
    assert(outcomes[0] == PageOutcome::Delivered(pages[0]));
    if pages.len() == 1 {
        assert(items_of(pages.drop_first()) =~= Seq::<T>::empty());
        assert(items + items_of(pages) =~= items + pages[0].items@);
    } else {
        let rest = pages.drop_first();
        assert(pages[0].next is Some);
        assert(chained(rest)) by {
            assert forall|i: int| 0 <= i < rest.len() - 1 implies (#[trigger] rest[i]).next is Some by {
                assert(rest[i] == pages[i + 1]);
            }
            assert(rest.last() == pages.last());
        }
        assert(outcomes.drop_first() =~= delivered(rest));
        lemma_traversal_gathers_all(items + pages[0].items@, true, rest);
        assert(items + pages[0].items@ + items_of(rest) =~= items + items_of(pages));
    }
}

/// A failure anywhere ends the traversal without items: where the pages
/// before it were delivered, each with a continuation token, and the request
/// that followed them failed or found no page, the traversal has failed,
/// whatever it had gathered and whatever comes after.
pub proof fn lemma_traversal_fails_whole<T>(
    items: Seq<T>,
    started: bool,
    pages: Seq<Page<T>>,
    failure: PageOutcome<T>,
    later: Seq<PageOutcome<T>>,
)
    requires
        all_continue(pages),
        !(failure is Delivered),
    ensures
        progress_through(items, started, delivered(pages).push(failure) + later)
            == progress_after(items + items_of(pages), started || pages.len() > 0, failure),
        progress_through(items, started, delivered(pages).push(failure) + later) is Failed,
    decreases pages.len(),
{
    let outcomes = delivered(pages).push(failure) + later;
    if pages.len() == 0 {
        assert(outcomes[0] == failure);
        assert(items + items_of(pages) =~= items);
    } else {
        let rest = pages.drop_first();
        assert(outcomes[0] == PageOutcome::Delivered(pages[0]));
        assert(pages[0].next is Some);
        assert(all_continue(rest)) by {
            assert forall|i: int| 0 <= i < rest.len() implies (#[trigger] rest[i]).next is Some by {
                assert(rest[i] == pages[i + 1]);
            }
        }
        assert(outcomes.drop_first() =~= delivered(rest).push(failure) + later);
        lemma_traversal_fails_whole(items + pages[0].items@, true, rest, failure, later);
        assert(items + pages[0].items@ + items_of(rest) =~= items + items_of(pages));
    }
}

} // verus!
