use notehub::pagination::{Page, PageOutcome, PageRequest, RemoteFetchError, Step, Traversal};

fn page(from: u64, count: u64, next: Option<&str>) -> PageOutcome<u64> {
    PageOutcome::Delivered(Page {
        items: (from..from + count).collect(),
        next: next.map(|t| t.to_string()),
    })
}

/// Drives a traversal over the outcomes, and notes the requests it made.
fn drive(outcomes: Vec<PageOutcome<u64>>) -> (Option<Result<Vec<u64>, RemoteFetchError>>, Vec<String>) {
    let (mut traversal, first) = Traversal::begin();
    assert!(matches!(first, PageRequest::First));
    let mut requests = vec!["<first>".to_string()];
    for outcome in outcomes {
        match traversal.advance(outcome) {
            Step::Fetch(next, request) => {
                traversal = next;
                match request {
                    PageRequest::Next(token) => requests.push(token),
                    PageRequest::First => panic!("the first page is asked for once"),
                }
            }
            Step::Done(items) => return (Some(Ok(items)), requests),
            Step::Failed(e) => return (Some(Err(e)), requests),
        }
    }
    (None, requests)
}

#[test]
fn three_pages_are_gathered_in_order() {
    let (result, requests) = drive(vec![
        page(0, 50, Some("page-2")),
        page(50, 50, Some("page-3")),
        page(100, 7, None),
    ]);
    let items = result.unwrap().unwrap();
    assert_eq!(items.len(), 107);
    assert_eq!(items, (0..107).collect::<Vec<u64>>());
    let mut unique = items.clone();
    unique.dedup();
    assert_eq!(unique.len(), 107);
    assert_eq!(requests, vec!["<first>".to_string(), "page-2".to_string(), "page-3".to_string()]);
}

#[test]
fn a_single_page_completes_the_traversal() {
    let (result, requests) = drive(vec![page(1, 3, None)]);
    assert_eq!(result.unwrap().unwrap(), vec![1, 2, 3]);
    assert_eq!(requests.len(), 1);
}

#[test]
fn an_empty_collection_is_complete() {
    let (result, _) = drive(vec![page(0, 0, None)]);
    assert_eq!(result.unwrap().unwrap(), Vec::<u64>::new());
}

#[test]
fn a_traversal_waits_while_pages_continue() {
    let (result, requests) = drive(vec![page(0, 2, Some("more"))]);
    assert!(result.is_none());
    assert_eq!(requests, vec!["<first>".to_string(), "more".to_string()]);
}

#[test]
fn a_failing_second_page_fails_the_whole_traversal() {
    let (result, _) = drive(vec![
        page(0, 50, Some("page-2")),
        PageOutcome::Failed("connection reset".to_string()),
        page(100, 7, None),
    ]);
    match result {
        Some(Err(RemoteFetchError::NextPage(cause))) => assert_eq!(cause, "connection reset"),
        other => panic!("unexpected {:?}", other),
    }
}

#[test]
fn a_failing_first_page_is_told_apart() {
    let (result, _) = drive(vec![PageOutcome::Failed("denied".to_string())]);
    match result {
        Some(Err(RemoteFetchError::FirstPage(cause))) => assert_eq!(cause, "denied"),
        other => panic!("unexpected {:?}", other),
    }
}

#[test]
fn a_missing_page_fails_the_traversal() {
    let (result, _) = drive(vec![page(0, 5, Some("page-2")), PageOutcome::Missing]);
    assert!(matches!(result, Some(Err(RemoteFetchError::MissingPage))));
}

#[test]
fn fetch_error_messages() {
    assert_eq!(
        RemoteFetchError::FirstPage("denied".to_string()).message("issues"),
        "failed to fetch issues: denied"
    );
    assert_eq!(
        RemoteFetchError::NextPage("timeout".to_string()).message("repositories"),
        "failed to fetch next repositories page: timeout"
    );
    assert_eq!(RemoteFetchError::MissingPage.message("issues"), "missing issues page");
    assert_eq!(
        RemoteFetchError::Item(42, "not found".to_string()).message("issues"),
        "failed to fetch issue #42: not found"
    );
}
