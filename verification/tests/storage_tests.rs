use notehub::github::{IssueState, RemoteIssue};
use notehub::storage::{
    to_remote_number, to_stored_number, Document, DocumentKind, IssueMeta, KindMeta, Note,
    PersistenceError, Storage, StorageUnavailable, StoredIssueDetail, SyncCursor,
};
use notehub::text::{join, to_decimal};
use notehub::timestamp::Timestamp;

fn at(secs: i64) -> Timestamp {
    Timestamp::from_unix(secs, 0).unwrap()
}

fn issue(number: u64, title: &str) -> RemoteIssue {
    RemoteIssue {
        number,
        title: title.to_string(),
        body: Some(format!("body of {}", title)),
        state: IssueState::Open,
        labels: vec!["bug".to_string(), "help wanted".to_string()],
        updated_at: at(1_700_000_000),
    }
}

fn row(id: i64, repo: &str, number: i64, title: &str, updated_at: &str) -> Document {
    Document {
        id,
        repo: repo.to_string(),
        external_id: number.to_string(),
        title: title.to_string(),
        body: None,
        updated_at: updated_at.to_string(),
        synced_at: "2024-01-01T00:00:00+00:00".to_string(),
        meta: KindMeta::Issue(IssueMeta {
            number,
            state: IssueState::Closed,
            labels: String::new(),
        }),
    }
}

fn open_rows(rows: Vec<Document>) -> Result<Storage, StorageUnavailable> {
    Storage::open(rows, Vec::new(), Vec::new())
}

fn note(id: i64, document_id: i64, body: &str) -> Note {
    Note {
        id,
        document_id,
        anchor: None,
        body: body.to_string(),
        created_at: "2024-01-01T00:00:00+00:00".to_string(),
        updated_at: "2024-01-01T00:00:00+00:00".to_string(),
    }
}

fn cursor(repo: &str, resource: &str) -> SyncCursor {
    SyncCursor {
        repo: repo.to_string(),
        resource: resource.to_string(),
        cursor: Some("page-9".to_string()),
        updated_at: "2024-01-01T00:00:00+00:00".to_string(),
    }
}

fn number_of(doc: &Document) -> i64 {
    match &doc.meta {
        KindMeta::Issue(meta) => meta.number,
    }
}

fn same_detail(a: &StoredIssueDetail, b: &StoredIssueDetail) -> bool {
    a.number == b.number && a.title == b.title && a.body == b.body && a.updated_at == b.updated_at
}

#[test]
fn decimal_text_of_numbers() {
    assert_eq!(to_decimal(0), "0");
    assert_eq!(to_decimal(7), "7");
    assert_eq!(to_decimal(10), "10");
    assert_eq!(to_decimal(1_234_567_890), "1234567890");
    assert_eq!(to_decimal(u64::MAX), "18446744073709551615");
}

#[test]
fn join_puts_the_separator_between() {
    assert_eq!(join(&Vec::new(), ", "), "");
    assert_eq!(join(&vec!["bug".to_string()], ", "), "bug");
    assert_eq!(
        join(&vec!["bug".to_string(), "ui".to_string(), "p1".to_string()], ", "),
        "bug, ui, p1"
    );
}

#[test]
fn stored_numbers_wrap_like_the_bits() {
    assert_eq!(to_stored_number(0), 0);
    assert_eq!(to_stored_number(42), 42);
    assert_eq!(to_stored_number(i64::MAX as u64), i64::MAX);
    assert_eq!(to_stored_number(i64::MAX as u64 + 1), i64::MIN);
    assert_eq!(to_stored_number(u64::MAX), -1);
    assert_eq!(to_remote_number(-1), u64::MAX);
    assert_eq!(to_remote_number(i64::MIN), i64::MAX as u64 + 1);
    assert_eq!(to_remote_number(42), 42);
}

#[test]
fn kind_tag() {
    assert_eq!(DocumentKind::Issue.as_str(), "issue");
}

#[test]
fn a_new_store_is_empty() {
    let store = Storage::new();
    assert!(store.documents().is_empty());
    assert_eq!(store.last_id(), 0);
    assert!(store.list_issues("acme/a").is_empty());
    assert!(store.get_issue("acme/a", 1).unwrap().is_none());
}

#[test]
fn upsert_writes_every_field() {
    let mut store = Storage::new();
    let synced = Timestamp::from_unix(1_700_000_500, 250_000_000).unwrap();
    assert_eq!(store.upsert_issue_at("acme/a", &issue(12, "first"), synced), Ok(()));
    let docs = store.documents();
    assert_eq!(docs.len(), 1);
    let doc = &docs[0];
    assert_eq!(doc.id, 1);
    assert_eq!(doc.repo, "acme/a");
    assert_eq!(doc.external_id, "12");
    assert_eq!(doc.title, "first");
    assert_eq!(doc.body, Some("body of first".to_string()));
    assert_eq!(doc.updated_at, "2023-11-14T22:13:20+00:00");
    assert_eq!(doc.synced_at, "2023-11-14T22:21:40.250+00:00");
    match &doc.meta {
        KindMeta::Issue(meta) => {
            assert_eq!(meta.number, 12);
            assert_eq!(meta.state, IssueState::Open);
            assert_eq!(meta.labels, "bug, help wanted");
        }
    }
    assert_eq!(store.last_id(), 1);
}

#[test]
fn upsert_stores_a_missing_body_as_empty() {
    let mut store = Storage::new();
    let mut bare = issue(3, "bare");
    bare.body = None;
    bare.labels = Vec::new();
    bare.state = IssueState::Unknown;
    store.upsert_issue_at("acme/a", &bare, at(1_700_000_001)).unwrap();
    let doc = &store.documents()[0];
    assert_eq!(doc.body, Some(String::new()));
    match &doc.meta {
        KindMeta::Issue(meta) => {
            assert_eq!(meta.labels, "");
            assert_eq!(meta.state, IssueState::Unknown);
        }
    }
    assert_eq!(store.get_issue("acme/a", 3).unwrap().unwrap().body, Some(String::new()));
}

#[test]
fn upserting_twice_keeps_one_row_and_advances_the_sync_instant() {
    let mut store = Storage::new();
    let item = issue(5, "same");
    store.upsert_issue_at("acme/a", &item, at(1_700_000_100)).unwrap();
    let first = store.documents()[0].clone();
    store.upsert_issue_at("acme/a", &item, at(1_700_000_200)).unwrap();
    assert_eq!(store.documents().len(), 1);
    let second = store.documents()[0].clone();
    assert_eq!(second.id, first.id);
    assert_eq!(second.repo, first.repo);
    assert_eq!(second.external_id, first.external_id);
    assert_eq!(second.title, first.title);
    assert_eq!(second.body, first.body);
    assert_eq!(second.updated_at, first.updated_at);
    assert_eq!(number_of(&second), number_of(&first));
    assert_eq!(first.synced_at, "2023-11-14T22:15:00+00:00");
    assert_eq!(second.synced_at, "2023-11-14T22:16:40+00:00");
    assert_eq!(store.last_id(), 1);
}

#[test]
fn upserting_with_the_clock_keeps_one_row() {
    let mut store = Storage::new();
    let item = issue(5, "same");
    store.upsert_issue("acme/a", &item).unwrap();
    let first = store.documents()[0].clone();
    store.upsert_issue("acme/a", &item).unwrap();
    assert_eq!(store.documents().len(), 1);
    let second = store.documents()[0].clone();
    assert_eq!(second.id, first.id);
    assert_eq!(second.title, first.title);
    assert_eq!(second.updated_at, first.updated_at);
    // Each write left the instant of its own reading of the clock.
    assert!(Timestamp::parse_rfc3339(&first.synced_at).is_some());
    assert!(Timestamp::parse_rfc3339(&second.synced_at).is_some());
}

#[test]
fn upserting_a_changed_item_overwrites_in_place() {
    let mut store = Storage::new();
    store.upsert_issue_at("acme/a", &issue(1, "one"), at(1_700_000_100)).unwrap();
    store.upsert_issue_at("acme/a", &issue(5, "old title"), at(1_700_000_100)).unwrap();
    let changed = RemoteIssue {
        number: 5,
        title: "new title".to_string(),
        body: None,
        state: IssueState::Closed,
        labels: vec!["done".to_string()],
        updated_at: at(1_700_090_000),
    };
    store.upsert_issue_at("acme/a", &changed, at(1_700_090_100)).unwrap();
    let docs = store.documents();
    assert_eq!(docs.len(), 2);
    assert_eq!(docs[0].title, "one");
    let doc = &docs[1];
    assert_eq!(doc.id, 2);
    assert_eq!(doc.repo, "acme/a");
    assert_eq!(doc.external_id, "5");
    assert_eq!(doc.title, "new title");
    assert_eq!(doc.body, Some(String::new()));
    assert_eq!(doc.updated_at, "2023-11-15T23:13:20+00:00");
    assert_eq!(doc.synced_at, "2023-11-15T23:15:00+00:00");
    match &doc.meta {
        KindMeta::Issue(meta) => {
            assert_eq!(meta.number, 5);
            assert_eq!(meta.state, IssueState::Closed);
            assert_eq!(meta.labels, "done");
        }
    }
    assert_eq!(store.last_id(), 2);
}

#[test]
fn the_same_number_in_two_repositories_gives_two_documents() {
    let mut store = Storage::new();
    store.upsert_issue_at("acme/a", &issue(1, "in a"), at(1_700_000_100)).unwrap();
    store.upsert_issue_at("acme/b", &issue(1, "in b"), at(1_700_000_100)).unwrap();
    assert_eq!(store.documents().len(), 2);
    assert_ne!(store.documents()[0].id, store.documents()[1].id);
    let in_a = store.list_issues("acme/a");
    assert_eq!(in_a.len(), 1);
    assert_eq!(in_a[0].title, "in a");
    let in_b = store.list_issues("acme/b");
    assert_eq!(in_b.len(), 1);
    assert_eq!(in_b[0].title, "in b");
    assert_eq!(store.get_issue("acme/a", 1).unwrap().unwrap().title, "in a");
    assert_eq!(store.get_issue("acme/b", 1).unwrap().unwrap().title, "in b");
    // A change in one repository leaves the other alone.
    store.upsert_issue_at("acme/b", &issue(1, "b again"), at(1_700_000_200)).unwrap();
    assert_eq!(store.get_issue("acme/a", 1).unwrap().unwrap().title, "in a");
    assert_eq!(store.documents()[0].synced_at, "2023-11-14T22:15:00+00:00");
    assert!(store.list_issues("acme/c").is_empty());
}

#[test]
fn issues_are_listed_from_the_greatest_number_down() {
    let mut store = Storage::new();
    for number in [3u64, 11, 7, 1, 100, 42] {
        store
            .upsert_issue_at("acme/a", &issue(number, &format!("issue {}", number)), at(1_700_000_100))
            .unwrap();
    }
    store.upsert_issue_at("acme/b", &issue(50, "elsewhere"), at(1_700_000_100)).unwrap();
    let listed = store.list_issues("acme/a");
    let numbers: Vec<i64> = listed.iter().map(|s| s.number).collect();
    assert_eq!(numbers, vec![100, 42, 11, 7, 3, 1]);
    assert_eq!(listed[1].title, "issue 42");
}

#[test]
fn get_issue_returns_the_cached_detail() {
    let mut store = Storage::new();
    store.upsert_issue_at("acme/a", &issue(9, "nine"), at(1_700_000_100)).unwrap();
    let detail = store.get_issue("acme/a", 9).unwrap().unwrap();
    assert_eq!(detail.number, 9);
    assert_eq!(detail.title, "nine");
    assert_eq!(detail.body, Some("body of nine".to_string()));
    assert_eq!(detail.updated_at, at(1_700_000_000));
    assert!(store.get_issue("acme/a", 10).unwrap().is_none());
    assert!(store.get_issue("acme/b", 9).unwrap().is_none());
    assert_eq!(store.find_issue("acme/a", 9).unwrap().id, 1);
    assert!(store.find_issue("acme/a", 90).is_none());
}

#[test]
fn a_malformed_instant_does_not_hide_the_row() {
    let store = open_rows(vec![
        row(1, "acme/a", 4, "broken clock", "not a timestamp"),
        row(2, "acme/a", 5, "fine", "2020-02-02T02:02:02Z"),
    ])
    .unwrap();
    let now = at(1_750_000_000);
    let detail = store.get_issue_at("acme/a", 4, now).unwrap();
    assert_eq!(detail.number, 4);
    assert_eq!(detail.title, "broken clock");
    assert_eq!(detail.body, None);
    assert_eq!(detail.updated_at, now);
    // The row is read, not rewritten.
    assert_eq!(store.documents()[0].updated_at, "not a timestamp");
    let fine = store.get_issue_at("acme/a", 5, now).unwrap();
    assert_eq!(fine.updated_at, at(1_580_608_922));
    assert!(store.get_issue_at("acme/a", 6, now).is_none());
    assert!(store.get_issue_at("acme/b", 4, now).is_none());
}

#[test]
fn a_malformed_instant_is_replaced_by_the_clock() {
    let store =
        open_rows(vec![row(1, "acme/a", 4, "broken clock", "not a timestamp")]).unwrap();
    let detail = store.get_issue("acme/a", 4).unwrap().unwrap();
    assert_eq!(detail.number, 4);
    assert_eq!(detail.title, "broken clock");
    // What the clock gave is an instant that can be written and read again.
    assert_eq!(
        Timestamp::from_unix(detail.updated_at.unix_seconds(), detail.updated_at.subsec_nanos()),
        Some(detail.updated_at)
    );
    assert_ne!(detail.updated_at.to_rfc3339(), "");
    assert_eq!(store.documents()[0].updated_at, "not a timestamp");
}

#[test]
fn reading_at_an_instant_twice_gives_the_same_detail() {
    let store =
        open_rows(vec![row(1, "acme/a", 4, "broken clock", "not a timestamp")]).unwrap();
    let now = at(1_750_000_000);
    let first = store.get_issue_at("acme/a", 4, now).unwrap();
    let second = store.get_issue_at("acme/a", 4, now).unwrap();
    assert!(same_detail(&first, &second));
}

#[test]
fn detail_of_a_document_takes_the_instant_given() {
    let doc = row(1, "acme/a", 4, "title", "whatever");
    let detail = StoredIssueDetail::of_document(&doc, at(77));
    assert_eq!(detail.number, 4);
    assert_eq!(detail.title, "title");
    assert_eq!(detail.body, None);
    assert_eq!(detail.updated_at, at(77));
}

#[test]
fn open_takes_rows_as_they_are() {
    let store = open_rows(vec![
        row(7, "acme/a", 1, "one", "2020-02-02T02:02:02Z"),
        row(3, "acme/b", 1, "other one", "2020-02-02T02:02:02Z"),
    ])
    .unwrap();
    assert_eq!(store.documents().len(), 2);
    assert_eq!(store.last_id(), 7);
    let mut store = store;
    store.upsert_issue_at("acme/a", &issue(2, "two"), at(1_700_000_100)).unwrap();
    assert_eq!(store.documents()[2].id, 8);
    assert_eq!(store.last_id(), 8);
}

#[test]
fn open_of_nothing_is_a_new_store() {
    let store = open_rows(Vec::new()).unwrap();
    assert!(store.documents().is_empty());
    assert_eq!(store.last_id(), 0);
}

#[test]
fn open_rejects_an_inconsistent_row() {
    let mut bad = row(1, "acme/a", 4, "title", "2020-02-02T02:02:02Z");
    bad.external_id = "5".to_string();
    assert_eq!(open_rows(vec![bad]).err(), Some(StorageUnavailable::InconsistentDocument));
    let mut padded = row(1, "acme/a", 4, "title", "2020-02-02T02:02:02Z");
    padded.external_id = "04".to_string();
    assert_eq!(open_rows(vec![padded]).err(), Some(StorageUnavailable::InconsistentDocument));
}

#[test]
fn open_rejects_shared_identifiers() {
    let rows = vec![
        row(1, "acme/a", 4, "a", "2020-02-02T02:02:02Z"),
        row(2, "acme/a", 5, "b", "2020-02-02T02:02:02Z"),
        row(1, "acme/a", 6, "c", "2020-02-02T02:02:02Z"),
    ];
    assert_eq!(open_rows(rows).err(), Some(StorageUnavailable::DuplicateIdentifier));
}

#[test]
fn open_rejects_shared_keys() {
    let rows = vec![
        row(1, "acme/a", 4, "a", "2020-02-02T02:02:02Z"),
        row(2, "acme/b", 4, "b", "2020-02-02T02:02:02Z"),
        row(3, "acme/a", 4, "c", "2020-02-02T02:02:02Z"),
    ];
    assert_eq!(open_rows(rows).err(), Some(StorageUnavailable::DuplicateDocument));
}

#[test]
fn a_full_store_takes_no_new_row_but_still_overwrites() {
    let mut store =
        open_rows(vec![row(i64::MAX, "acme/a", 1, "last", "2020-02-02T02:02:02Z")]).unwrap();
    assert_eq!(
        store.upsert_issue_at("acme/a", &issue(2, "no room"), at(1_700_000_100)),
        Err(PersistenceError::IdentifiersExhausted)
    );
    assert_eq!(store.upsert_issue("acme/a", &issue(2, "no room")), Err(PersistenceError::IdentifiersExhausted));
    assert_eq!(store.documents().len(), 1);
    assert_eq!(store.documents()[0].title, "last");
    assert_eq!(store.upsert_issue_at("acme/a", &issue(1, "rewritten"), at(1_700_000_100)), Ok(()));
    assert_eq!(store.documents()[0].title, "rewritten");
    assert_eq!(store.documents()[0].id, i64::MAX);
}

#[test]
fn a_number_past_the_signed_range_is_found_again() {
    let mut store = Storage::new();
    let huge = u64::MAX - 1;
    store.upsert_issue_at("acme/a", &issue(huge, "huge"), at(1_700_000_100)).unwrap();
    assert_eq!(store.documents()[0].external_id, "18446744073709551614");
    assert_eq!(number_of(&store.documents()[0]), -2);
    let detail = store.get_issue("acme/a", huge).unwrap().unwrap();
    assert_eq!(detail.number, -2);
    assert_eq!(detail.title, "huge");
    store.upsert_issue_at("acme/a", &issue(huge, "huge again"), at(1_700_000_200)).unwrap();
    assert_eq!(store.documents().len(), 1);
    assert!(store.get_issue("acme/a", 2).unwrap().is_none());
}

#[test]
fn reading_twice_gives_the_same_detail() {
    let mut store = Storage::new();
    store.upsert_issue_at("acme/a", &issue(9, "nine"), at(1_700_000_100)).unwrap();
    let first = store.get_issue("acme/a", 9).unwrap().unwrap();
    let second = store.get_issue("acme/a", 9).unwrap().unwrap();
    assert!(same_detail(&first, &second));
}

#[test]
fn open_keeps_notes_and_cursors() {
    let store = Storage::open(
        vec![row(1, "acme/a", 4, "a", "2020-02-02T02:02:02Z")],
        vec![note(1, 1, "first"), note(2, 1, "second")],
        vec![cursor("acme/a", "issues"), cursor("acme/a", "pulls"), cursor("acme/b", "issues")],
    )
    .unwrap();
    assert_eq!(store.notes().len(), 2);
    assert_eq!(store.notes()[1].body, "second");
    assert_eq!(store.cursors().len(), 3);
    assert_eq!(store.cursors()[0].cursor, Some("page-9".to_string()));
}

#[test]
fn open_rejects_shared_note_identifiers() {
    let r = Storage::open(
        vec![row(1, "acme/a", 4, "a", "2020-02-02T02:02:02Z")],
        vec![note(1, 1, "first"), note(1, 1, "second")],
        Vec::new(),
    );
    assert_eq!(r.err(), Some(StorageUnavailable::DuplicateNote));
}

#[test]
fn open_rejects_a_note_without_its_document() {
    let r = Storage::open(
        vec![row(1, "acme/a", 4, "a", "2020-02-02T02:02:02Z")],
        vec![note(1, 1, "first"), note(2, 9, "lost")],
        Vec::new(),
    );
    assert_eq!(r.err(), Some(StorageUnavailable::OrphanNote));
}

#[test]
fn open_rejects_shared_cursors() {
    let r = Storage::open(
        Vec::new(),
        Vec::new(),
        vec![cursor("acme/a", "issues"), cursor("acme/b", "issues"), cursor("acme/a", "issues")],
    );
    assert_eq!(r.err(), Some(StorageUnavailable::DuplicateCursor));
}

#[test]
fn open_reports_rows_before_notes_and_cursors() {
    let r = Storage::open(
        vec![
            row(1, "acme/a", 4, "a", "2020-02-02T02:02:02Z"),
            row(1, "acme/a", 5, "b", "2020-02-02T02:02:02Z"),
        ],
        vec![note(1, 9, "lost")],
        vec![cursor("acme/a", "issues"), cursor("acme/a", "issues")],
    );
    assert_eq!(r.err(), Some(StorageUnavailable::DuplicateIdentifier));
}

#[test]
fn upsert_leaves_notes_and_cursors_alone() {
    let mut store = Storage::open(
        vec![row(1, "acme/a", 4, "a", "2020-02-02T02:02:02Z")],
        vec![note(7, 1, "keep me")],
        vec![cursor("acme/a", "issues")],
    )
    .unwrap();
    store.upsert_issue_at("acme/a", &issue(4, "rewritten"), at(1_700_000_100)).unwrap();
    store.upsert_issue_at("acme/a", &issue(5, "new"), at(1_700_000_100)).unwrap();
    assert_eq!(store.documents()[0].id, 1);
    assert_eq!(store.notes().len(), 1);
    assert_eq!(store.notes()[0].document_id, 1);
    assert_eq!(store.notes()[0].body, "keep me");
    assert_eq!(store.cursors().len(), 1);
}

#[test]
fn storage_messages() {
    assert_eq!(
        StorageUnavailable::InconsistentDocument.message(),
        "a stored document disagrees with its metadata"
    );
    assert_eq!(
        StorageUnavailable::DuplicateIdentifier.message(),
        "two stored documents share an identifier"
    );
    assert_eq!(
        StorageUnavailable::DuplicateDocument.message(),
        "two stored documents share repository, kind and external identifier"
    );
    assert_eq!(StorageUnavailable::DuplicateNote.message(), "two stored notes share an identifier");
    assert_eq!(StorageUnavailable::OrphanNote.message(), "a stored note belongs to no document");
    assert_eq!(
        StorageUnavailable::DuplicateCursor.message(),
        "two stored cursors share repository and resource"
    );
    assert_eq!(PersistenceError::IdentifiersExhausted.message(), "no document identifier is left");
    assert_eq!(PersistenceError::ClockUnavailable.message(), "the clock gives no usable instant");
}

#[test]
fn a_blank_body_is_not_shown() {
    let mut doc = row(1, "acme/a", 4, "title", "2020-02-02T02:02:02Z");
    assert_eq!(StoredIssueDetail::of_document(&doc, at(1)).visible_body(), None);
    doc.body = Some(" \n\t ".to_string());
    assert_eq!(StoredIssueDetail::of_document(&doc, at(1)).visible_body(), None);
    doc.body = Some("  text ".to_string());
    assert_eq!(
        StoredIssueDetail::of_document(&doc, at(1)).visible_body(),
        Some(&"  text ".to_string())
    );
}
