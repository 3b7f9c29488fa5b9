//! The cache store: what it holds and the operations on it.
//!
//! A store holds the rows of the `documents` table, each with the metadata of
//! its kind, and the last identifier that it gave out. No two rows share the
//! triple of repository, kind and external identifier, and none share an
//! identifier. Beside the rows it keeps the notes, each of which belongs to a
//! row, and the synchronization cursors, one at most for each repository and
//! resource. The store lives in memory; reading it from a durable place and
//! writing a changed row back is its caller's part.

use vstd::prelude::*;
use vstd::string::*;
use crate::github::{IssueState, RemoteIssue, RemoteIssueView};
use crate::text::{
    decimal_text, first_index, has_text, join, joined, lemma_decimal_text_injective,
    lemma_first_index_found, lemma_first_index_is, optional_text, to_decimal, trimmed, CharClass,
};
use crate::timestamp::{rfc3339_instant, Timestamp};

verus! {

/// The kinds of document that the store knows.
#[derive(Clone, Copy, Debug, PartialEq, Eq, Structural)]
pub enum DocumentKind {
    Issue,
}

impl DocumentKind {
    /// The tag that is stored for the kind.
    pub open spec fn word(self) -> Seq<char> {
        match self {
            DocumentKind::Issue => "issue"@,
        }
    }

    /// The tag that is stored for the kind.
    pub fn as_str(&self) -> (s: &'static str)
        ensures
            s@ == self.word(),
    {
        match self {
            DocumentKind::Issue => "issue",
        }
    }
}

/// The number that is stored for the issue which the remote source knows as
/// `n`: `n` itself while a signed 64-bit integer holds it, else the negative
/// number with the same 64 bits.
pub open spec fn stored_number(n: nat) -> int {
    if n <= i64::MAX {
        n as int
    } else {
        n - 0x1_0000_0000_0000_0000
    }
}

/// The number under which the remote source knows the issue that is stored
/// as `x`.
pub open spec fn remote_number(x: int) -> nat {
    if x >= 0 {
        x as nat
    } else {
        (x + 0x1_0000_0000_0000_0000) as nat
    }
}

/// The stored form of an issue number.
pub fn to_stored_number(n: u64) -> (x: i64)
    ensures
        x == stored_number(n as nat),
        remote_number(x as int) == n,
{
    if n <= 0x7fff_ffff_ffff_ffff {
        n as i64
    } else {
        ((n - 0x8000_0000_0000_0000) as i64) + i64::MIN
    }
}

/// The remote form of a stored issue number.
pub fn to_remote_number(x: i64) -> (n: u64)
    ensures
        n == remote_number(x as int),
        stored_number(n as nat) == x,
{
    if x >= 0 {
        x as u64
    } else {
        ((x - i64::MIN) as u64) + 0x8000_0000_0000_0000
    }
}

/// The metadata of a document of kind issue.
#[derive(Clone, Debug)]
pub struct IssueMeta {
    /// The number under which users know the issue, in its stored form.
    pub number: i64,
    pub state: IssueState,
    /// The names of the labels, joined by a comma and a blank.
    pub labels: String,
}

/// The metadata that belongs to a document, by its kind.
#[derive(Clone, Debug)]
pub enum KindMeta {
    Issue(IssueMeta),
}

/// A cached remote item: one row of the `documents` table, with the metadata
/// of its kind.
#[derive(Clone, Debug)]
pub struct Document {
    /// The identifier that the store gave the row.
    pub id: i64,
    /// The repository that owns the item, as `owner/name`.
    pub repo: String,
    /// The identifier of the item at the remote source, as text.
    pub external_id: String,
    pub title: String,
    pub body: Option<String>,
    /// When the item was last changed at the remote source, as RFC 3339 text.
    pub updated_at: String,
    /// When the row was last written, as RFC 3339 text.
    pub synced_at: String,
    pub meta: KindMeta,
}

/// A local annotation of a document: one row of the `notes` table. A
/// document may have any number of notes.
#[derive(Clone, Debug)]
pub struct Note {
    /// The identifier of the note.
    pub id: i64,
    /// The identifier of the document that the note belongs to.
    pub document_id: i64,
    /// Where in the document the note applies, if that was said.
    pub anchor: Option<String>,
    pub body: String,
    /// When the note was made, as RFC 3339 text.
    pub created_at: String,
    /// When the note was last changed, as RFC 3339 text.
    pub updated_at: String,
}

/// How far the synchronization of one resource of one repository has come:
/// one row of the `sync_state` table. No synchronization reads or moves a
/// cursor yet; each one walks the whole collection.
#[derive(Clone, Debug)]
pub struct SyncCursor {
    pub repo: String,
    /// The kind of resource, such as `issues`.
    pub resource: String,
    /// The token to go on from, as the remote source gave it.
    pub cursor: Option<String>,
    /// When the cursor was last moved, as RFC 3339 text.
    pub updated_at: String,
}

/// What a note holds, as plain values.
pub struct NoteView {
    pub id: int,
    pub document_id: int,
    pub anchor: Option<Seq<char>>,
    pub body: Seq<char>,
    pub created_at: Seq<char>,
    pub updated_at: Seq<char>,
}

/// What a cursor holds, as plain values.
pub struct SyncCursorView {
    pub repo: Seq<char>,
    pub resource: Seq<char>,
    pub cursor: Option<Seq<char>>,
    pub updated_at: Seq<char>,
}

impl SyncCursorView {
    /// The pair that identifies the cursor.
    pub open spec fn slot(self) -> (Seq<char>, Seq<char>) {
        (self.repo, self.resource)
    }
}

impl View for Note {
    type V = NoteView;

    open spec fn view(&self) -> NoteView {
        NoteView {
            id: self.id as int,
            document_id: self.document_id as int,
            anchor: optional_text(self.anchor),
            body: self.body@,
            created_at: self.created_at@,
            updated_at: self.updated_at@,
        }
    }
}

impl View for SyncCursor {
    type V = SyncCursorView;

    open spec fn view(&self) -> SyncCursorView {
        SyncCursorView {
            repo: self.repo@,
            resource: self.resource@,
            cursor: optional_text(self.cursor),
            updated_at: self.updated_at@,
        }
    }
}

/// The notes as plain values.
pub open spec fn note_views(notes: Seq<Note>) -> Seq<NoteView> {
    notes.map_values(|n: Note| n@)
}

/// The cursors as plain values.
pub open spec fn cursor_views(cursors: Seq<SyncCursor>) -> Seq<SyncCursorView> {
    cursors.map_values(|c: SyncCursor| c@)
}

/// What the metadata of an issue holds, as plain values.
pub struct IssueMetaView {
    pub number: int,
    pub state: IssueState,
    pub labels: Seq<char>,
}

/// What the metadata of a document holds, as plain values.
pub enum KindMetaView {
    Issue(IssueMetaView),
}

/// The triple that identifies a document.
pub struct DocKey {
    pub repo: Seq<char>,
    pub kind: DocumentKind,
    pub external_id: Seq<char>,
}

/// What a document holds, as plain values.
pub struct DocumentView {
    pub id: int,
    pub repo: Seq<char>,
    pub external_id: Seq<char>,
    pub title: Seq<char>,
    pub body: Option<Seq<char>>,
    pub updated_at: Seq<char>,
    pub synced_at: Seq<char>,
    pub meta: KindMetaView,
}

impl DocumentView {
    /// The kind of the document: that of its metadata.
    pub open spec fn kind(self) -> DocumentKind {
        match self.meta {
            KindMetaView::Issue(_) => DocumentKind::Issue,
        }
    }

    /// The triple that identifies the document.
    pub open spec fn key(self) -> DocKey {
        DocKey { repo: self.repo, kind: self.kind(), external_id: self.external_id }
    }

    /// Whether the row agrees with its metadata: the external identifier of
    /// an issue is its number, written in decimal.
    pub open spec fn consistent(self) -> bool {
        match self.meta {
            KindMetaView::Issue(meta) => i64::MIN <= meta.number <= i64::MAX && self.external_id
                == decimal_text(remote_number(meta.number)),
        }
    }
}

impl View for IssueMeta {
    type V = IssueMetaView;

    open spec fn view(&self) -> IssueMetaView {
        IssueMetaView { number: self.number as int, state: self.state, labels: self.labels@ }
    }
}

impl View for KindMeta {
    type V = KindMetaView;

    open spec fn view(&self) -> KindMetaView {
        match *self {
            KindMeta::Issue(meta) => KindMetaView::Issue(meta@),
        }
    }
}

impl View for Document {
    type V = DocumentView;

    open spec fn view(&self) -> DocumentView {
        DocumentView {
            id: self.id as int,
            repo: self.repo@,
            external_id: self.external_id@,
            title: self.title@,
            body: optional_text(self.body),
            updated_at: self.updated_at@,
            synced_at: self.synced_at@,
            meta: self.meta@,
        }
    }
}

/// The rows that a sequence of documents stands for.
pub open spec fn rows(documents: Seq<Document>) -> Seq<DocumentView> {
    documents.map_values(|d: Document| d@)
}

/// The key of the issue `number` of `repo`.
pub open spec fn issue_key(repo: Seq<char>, number: nat) -> DocKey {
    DocKey { repo, kind: DocumentKind::Issue, external_id: decimal_text(number) }
}

/// The separator between the names of labels.
pub open spec fn label_separator() -> Seq<char> {
    ", "@
}

/// The row that is written for `issue` in `repo`, under the identifier `id`
/// and at the instant `synced_at`. An issue without a body is stored with an
/// empty one.
pub open spec fn issue_row(
    id: int,
    repo: Seq<char>,
    issue: RemoteIssueView,
    synced_at: Timestamp,
) -> DocumentView {
    DocumentView {
        id,
        repo,
        external_id: decimal_text(issue.number as nat),
        title: issue.title,
        body: Some(
            match issue.body {
                Some(body) => body,
                None => Seq::empty(),
            },
        ),
        updated_at: issue.updated_at.text(),
        synced_at: synced_at.text(),
        meta: KindMetaView::Issue(
            IssueMetaView {
                number: stored_number(issue.number as nat),
                state: issue.state,
                labels: joined(issue.labels, label_separator()),
            },
        ),
    }
}

/// What a store holds, as plain values: its rows, in the order in which they
/// were first written, the last identifier it gave out, the notes, and the
/// cursors.
pub struct StorageView {
    pub documents: Seq<DocumentView>,
    pub last_id: int,
    pub notes: Seq<NoteView>,
    pub cursors: Seq<SyncCursorView>,
}

impl StorageView {
    /// The keys of the rows, in their order.
    pub open spec fn keys(self) -> Seq<DocKey> {
        self.documents.map_values(|d: DocumentView| d.key())
    }

    /// The invariant of a store. No two rows share a key or an identifier,
    /// every identifier was given out, and every row agrees with its
    /// metadata. No two notes share an identifier, and every note belongs to
    /// a row. No two cursors share repository and resource.
    pub open spec fn wf(self) -> bool {
        &&& self.keys().no_duplicates()
        &&& distinct_ids(self.documents)
        &&& forall|i: int|
            0 <= i < self.documents.len() ==> (#[trigger] self.documents[i]).id <= self.last_id
                && self.documents[i].consistent()
        &&& 0 <= self.last_id <= i64::MAX
        &&& distinct_notes(self.notes)
        &&& notes_owned(self.documents, self.notes)
        &&& distinct_cursors(self.cursors)
    }

    /// Whether a row has the key.
    pub open spec fn contains(self, key: DocKey) -> bool {
        self.keys().contains(key)
    }

    /// The row with the key, if there is one.
    pub open spec fn lookup(self, key: DocKey) -> Option<DocumentView> {
        if self.contains(key) {
            Some(self.documents[first_index(self.keys(), key)])
        } else {
            None
        }
    }

    /// Whether a new row can still get an identifier.
    pub open spec fn has_room(self) -> bool {
        self.last_id < i64::MAX
    }

    /// The store after `issue` of `repo` was written at the instant
    /// `synced_at`. A row with the key of the issue is overwritten in place
    /// and keeps its identifier; without one, a row is added under the next
    /// identifier, if there is one left, and else nothing changes. Notes and
    /// cursors stay as they are.
    pub open spec fn upserted(
        self,
        repo: Seq<char>,
        issue: RemoteIssueView,
        synced_at: Timestamp,
    ) -> StorageView {
        let key = issue_key(repo, issue.number as nat);
        if self.contains(key) {
            let at = first_index(self.keys(), key);
            StorageView {
                documents: self.documents.update(
                    at,
                    issue_row(self.documents[at].id, repo, issue, synced_at),
                ),
                ..self
            }
        } else if self.has_room() {
            StorageView {
                documents: self.documents.push(
                    issue_row(self.last_id + 1, repo, issue, synced_at),
                ),
                last_id: self.last_id + 1,
                ..self
            }
        } else {
            self
        }
    }
}

/// Whether every row agrees with its metadata.
pub open spec fn all_consistent(documents: Seq<DocumentView>) -> bool {
    forall|i: int| 0 <= i < documents.len() ==> (#[trigger] documents[i]).consistent()
}

/// Whether no two rows share an identifier.
pub open spec fn distinct_ids(documents: Seq<DocumentView>) -> bool {
    forall|i: int, j: int|
        0 <= i < j < documents.len() ==> (#[trigger] documents[i]).id != (
        #[trigger] documents[j]).id
}

/// Whether no two rows share a key.
pub open spec fn distinct_keys(documents: Seq<DocumentView>) -> bool {
    forall|i: int, j: int|
        0 <= i < j < documents.len() ==> (#[trigger] documents[i]).key() != (
        #[trigger] documents[j]).key()
}

/// Whether no two notes share an identifier.
pub open spec fn distinct_notes(notes: Seq<NoteView>) -> bool {
    forall|i: int, j: int|
        0 <= i < j < notes.len() ==> (#[trigger] notes[i]).id != (#[trigger] notes[j]).id
}

/// Whether every note belongs to one of the rows.
pub open spec fn notes_owned(documents: Seq<DocumentView>, notes: Seq<NoteView>) -> bool {
    forall|n: int|
        0 <= n < notes.len() ==> exists|i: int|
            0 <= i < documents.len() && (#[trigger] documents[i]).id == (
            #[trigger] notes[n]).document_id
}

/// Whether no two cursors share repository and resource.
pub open spec fn distinct_cursors(cursors: Seq<SyncCursorView>) -> bool {
    forall|i: int, j: int|
        0 <= i < j < cursors.len() ==> (#[trigger] cursors[i]).slot() != (
        #[trigger] cursors[j]).slot()
}

/// The greatest identifier among the rows, and zero where none is positive.
pub open spec fn greatest_id(documents: Seq<DocumentView>) -> int
    decreases documents.len(),
{
    if documents.len() == 0 {
        0
    } else {
        let front = greatest_id(documents.drop_last());
        if documents.last().id > front {
            documents.last().id
        } else {
            front
        }
    }
}

/// Why rows cannot be opened as a store.
#[derive(Clone, Copy, Debug, PartialEq, Eq, Structural)]
pub enum StorageUnavailable {
    /// A row disagrees with its metadata.
    InconsistentDocument,
    /// Two rows share an identifier.
    DuplicateIdentifier,
    /// Two rows share repository, kind and external identifier.
    DuplicateDocument,
    /// Two notes share an identifier.
    DuplicateNote,
    /// A note belongs to no row.
    OrphanNote,
    /// Two cursors share repository and resource.
    DuplicateCursor,
}

impl StorageUnavailable {
    /// The message shown for the error.
    pub open spec fn message_text(self) -> Seq<char> {
        match self {
            StorageUnavailable::InconsistentDocument =>
                "a stored document disagrees with its metadata"@,
            StorageUnavailable::DuplicateIdentifier => "two stored documents share an identifier"@,
            StorageUnavailable::DuplicateDocument =>
                "two stored documents share repository, kind and external identifier"@,
            StorageUnavailable::DuplicateNote => "two stored notes share an identifier"@,
            StorageUnavailable::OrphanNote => "a stored note belongs to no document"@,
            StorageUnavailable::DuplicateCursor =>
                "two stored cursors share repository and resource"@,
        }
    }

    /// The message shown for the error.
    pub fn message(&self) -> (m: &'static str)
        ensures
            m@ == self.message_text(),
    {
        match self {
            StorageUnavailable::InconsistentDocument =>
                "a stored document disagrees with its metadata",
            StorageUnavailable::DuplicateIdentifier => "two stored documents share an identifier",
            StorageUnavailable::DuplicateDocument =>
                "two stored documents share repository, kind and external identifier",
            StorageUnavailable::DuplicateNote => "two stored notes share an identifier",
            StorageUnavailable::OrphanNote => "a stored note belongs to no document",
            StorageUnavailable::DuplicateCursor =>
                "two stored cursors share repository and resource",
        }
    }
}

/// What opening rows, notes and cursors as a store fails with, if it fails.
/// The rows are looked at first: for one that disagrees with its metadata,
/// for a shared identifier, for a shared key. The notes come next: a shared
/// identifier, a note without its row. The cursors come last.
pub open spec fn open_failure(
    documents: Seq<DocumentView>,
    notes: Seq<NoteView>,
    cursors: Seq<SyncCursorView>,
) -> Option<StorageUnavailable> {
    if !all_consistent(documents) {
        Some(StorageUnavailable::InconsistentDocument)
    } else if !distinct_ids(documents) {
        Some(StorageUnavailable::DuplicateIdentifier)
    } else if !distinct_keys(documents) {
        Some(StorageUnavailable::DuplicateDocument)
    } else if !distinct_notes(notes) {
        Some(StorageUnavailable::DuplicateNote)
    } else if !notes_owned(documents, notes) {
        Some(StorageUnavailable::OrphanNote)
    } else if !distinct_cursors(cursors) {
        Some(StorageUnavailable::DuplicateCursor)
    } else {
        None
    }
}

/// Why a write to the store failed.
#[derive(Clone, Copy, Debug, PartialEq, Eq, Structural)]
pub enum PersistenceError {
    /// Every identifier was given out: no row can be added.
    IdentifiersExhausted,
    /// The clock of the machine gives no instant: it stands before the Unix
    /// epoch, or too far after it.
    ClockUnavailable,
}

impl PersistenceError {
    /// The message shown for the error.
    pub open spec fn message_text(self) -> Seq<char> {
        match self {
            PersistenceError::IdentifiersExhausted => "no document identifier is left"@,
            PersistenceError::ClockUnavailable => "the clock gives no usable instant"@,
        }
    }

    /// The message shown for the error.
    pub fn message(&self) -> (m: &'static str)
        ensures
            m@ == self.message_text(),
    {
        match self {
            PersistenceError::IdentifiersExhausted => "no document identifier is left",
            PersistenceError::ClockUnavailable => "the clock gives no usable instant",
        }
    }
}

/// The number and the title of a cached issue.
#[derive(Debug)]
pub struct StoredIssueSummary {
    pub number: i64,
    pub title: String,
}

/// A cached issue in full.
#[derive(Debug)]
pub struct StoredIssueDetail {
    pub number: i64,
    pub title: String,
    pub body: Option<String>,
    /// When the issue was last changed at the remote source.
    pub updated_at: Timestamp,
}

impl DocumentView {
    /// The number of the issue, in its stored form.
    pub open spec fn issue_number(self) -> int {
        match self.meta {
            KindMetaView::Issue(meta) => meta.number,
        }
    }
}

impl StoredIssueSummary {
    /// Whether the summary is that of `row`.
    pub open spec fn summarizes(self, row: DocumentView) -> bool {
        self.number == row.issue_number() && self.title@ == row.title
    }
}

impl StorageView {
    /// Whether `summary` is that of an issue row of `repo`.
    pub open spec fn has_issue_like(self, repo: Seq<char>, summary: StoredIssueSummary) -> bool {
        exists|i: int|
            0 <= i < self.documents.len() && (#[trigger] self.documents[i]).repo == repo
                && self.documents[i].kind() == DocumentKind::Issue && summary.summarizes(
                self.documents[i],
            )
    }
}

/// Whether one of `issues` is the summary of `row`.
pub open spec fn listed(issues: Seq<StoredIssueSummary>, row: DocumentView) -> bool {
    exists|j: int| 0 <= j < issues.len() && (#[trigger] issues[j]).summarizes(row)
}

impl StoredIssueDetail {
    /// Whether the detail is that of `row`, with `updated_at` as the instant
    /// of its last remote change.
    pub open spec fn shows(self, row: DocumentView, updated_at: Timestamp) -> bool {
        &&& self.number == row.issue_number()
        &&& self.title@ == row.title
        &&& optional_text(self.body) == row.body
        &&& self.updated_at == updated_at
    }

    /// Whether the instant of the detail is the one that the stored text of
    /// `row` spells. A text that spells none puts no condition on it.
    pub open spec fn dated_by(self, row: DocumentView) -> bool {
        match rfc3339_instant(row.updated_at) {
            Some(at) => self.updated_at.spec_unix_seconds() == at.0
                && self.updated_at.spec_subsec_nanos() == at.1,
            None => true,
        }
    }

    /// Whether the detail is what a reading of `row` at the instant `now`
    /// shows: number, title and body are those of the row, and the instant of
    /// the last remote change is the one that the stored text spells, or
    /// `now` where the text spells none.
    pub open spec fn reads_at(self, row: DocumentView, now: Timestamp) -> bool {
        &&& self.shows(row, self.updated_at)
        &&& self.dated_by(row)
        &&& rfc3339_instant(row.updated_at) is None ==> self.updated_at == now
    }

    /// The body, where it is worth showing: one that holds anything but
    /// white space.
    pub fn visible_body(&self) -> (body: Option<&String>)
        ensures
            match self.body {
                Some(text) => if trimmed(text@, CharClass::WhiteSpace).len() > 0 {
                    body == Some(&text)
                } else {
                    body is None
                },
                None => body is None,
            },
    {
        match &self.body {
            Some(text) => if has_text(text.as_str()) {
                Some(text)
            } else {
                None
            },
            None => None,
        }
    }

    /// The detail of `doc`, with `updated_at` as the instant of its last
    /// remote change.
    pub fn of_document(doc: &Document, updated_at: Timestamp) -> (detail: StoredIssueDetail)
        ensures
            detail.shows(doc@, updated_at),
    {
        let number = match &doc.meta {
            KindMeta::Issue(meta) => meta.number,
        };
        let body = match &doc.body {
            Some(body) => Some(body.clone()),
            None => None,
        };
        StoredIssueDetail { number, title: doc.title.clone(), body, updated_at }
    }
}

/// The cache store.
#[derive(Debug)]
pub struct Storage {
    documents: Vec<Document>,
    last_id: i64,
    notes: Vec<Note>,
    cursors: Vec<SyncCursor>,
}

impl View for Storage {
    type V = StorageView;

    closed spec fn view(&self) -> StorageView {
        StorageView {
            documents: rows(self.documents@),
            last_id: self.last_id as int,
            notes: note_views(self.notes@),
            cursors: cursor_views(self.cursors@),
        }
    }
}

/// The document that holds `issue` of `repo`.
fn issue_document(id: i64, repo: &str, issue: &RemoteIssue, synced_at: Timestamp) -> (doc:
    Document)
    ensures
        doc@ == issue_row(id as int, repo@, issue@, synced_at),
{
    let body = match &issue.body {
        Some(body) => body.clone(),
        None => String::new(),
    };
    Document {
        id,
        repo: repo.to_owned(),
        external_id: to_decimal(issue.number),
        title: issue.title.clone(),
        body: Some(body),
        updated_at: issue.updated_at.to_rfc3339(),
        synced_at: synced_at.to_rfc3339(),
        meta: KindMeta::Issue(
            IssueMeta {
                number: to_stored_number(issue.number),
                state: issue.state,
                labels: join(&issue.labels, ", "),
            },
        ),
    }
}

impl Storage {
    /// A store that holds nothing.
    pub fn new() -> (store: Storage)
        ensures
            store@.wf(),
            store@.documents.len() == 0,
            store@.last_id == 0,
            store@.notes.len() == 0,
            store@.cursors.len() == 0,
    {
        Storage { documents: Vec::new(), last_id: 0, notes: Vec::new(), cursors: Vec::new() }
    }

    /// The notes of the store.
    pub fn notes(&self) -> (notes: &[Note])
        ensures
            note_views(notes@) == self@.notes,
    {
        self.notes.as_slice()
    }

    /// The cursors of the store.
    pub fn cursors(&self) -> (cursors: &[SyncCursor])
        ensures
            cursor_views(cursors@) == self@.cursors,
    {
        self.cursors.as_slice()
    }

    /// The rows of the store, in the order in which they were first written.
    pub fn documents(&self) -> (documents: &[Document])
        ensures
            rows(documents@) == self@.documents,
    {
        self.documents.as_slice()
    }

    /// The last identifier that the store gave out; zero if it gave none.
    pub fn last_id(&self) -> (id: i64)
        ensures
            id == self@.last_id,
    {
        self.last_id
    }

    /// The place of the issue `number` of `repo` among the rows.
    fn position_of_issue(&self, repo: &str, number: u64) -> (found: Option<usize>)
        requires
            self@.wf(),
        ensures
            found is Some <==> self@.contains(issue_key(repo@, number as nat)),
            found matches Some(at) ==> at < self.documents.len() && at == first_index(
                self@.keys(),
                issue_key(repo@, number as nat),
            ) && self@.keys()[at as int] == issue_key(repo@, number as nat),
    {
        let wanted = repo.to_owned();
        let stored = to_stored_number(number);
        let ghost key = issue_key(repo@, number as nat);
        let ghost keys = self@.keys();
        let mut i: usize = 0;
        while i < self.documents.len()
            invariant
                i <= self.documents.len(),
                self@.wf(),
                wanted@ == repo@,
                stored == stored_number(number as nat),
                remote_number(stored as int) == number,
                key == issue_key(repo@, number as nat),
                keys == self@.keys(),
                forall|k: int| 0 <= k < i ==> #[trigger] keys[k] != key,
            decreases self.documents.len() - i,
        {
            let doc = &self.documents[i];
            let same_number = match &doc.meta {
                KindMeta::Issue(meta) => meta.number == stored,
            };
            proof {
                let row = self@.documents[i as int];
                assert(row == doc@);
                assert(keys[i as int] == row.key());
                assert(row.consistent());
                if row.external_id == key.external_id {
                    match row.meta {
                        KindMetaView::Issue(meta) => {
                            lemma_decimal_text_injective(
                                remote_number(meta.number),
                                number as nat,
                            );
                        },
                    }
                }
            }
            if same_number && doc.repo == wanted {
                proof {
                    assert(keys[i as int] == key);
                    lemma_first_index_is(keys, key, i as int);
                }
                return Some(i);
            }
            i += 1;
        }
        proof {
            if keys.contains(key) {
                let k = choose|k: int| 0 <= k < keys.len() && keys[k] == key;
                assert(keys[k] != key);
            }
        }
        None
    }

    /// The row of the issue `number` of `repo`, if the store holds one.
    pub fn find_issue(&self, repo: &str, number: u64) -> (found: Option<&Document>)
        requires
            self@.wf(),
        ensures
            match self@.lookup(issue_key(repo@, number as nat)) {
                Some(row) => found matches Some(doc) && doc@ == row,
                None => found is None,
            },
    {
        match self.position_of_issue(repo, number) {
            Some(at) => Some(&self.documents[at]),
            None => None,
        }
    }

    /// Writes `issue` of `repo` into the store, as at the instant
    /// `synced_at`: see [`StorageView::upserted`]. The write fails, and
    /// changes nothing, exactly where the issue is new to the store and no
    /// identifier is left for it.
    pub fn upsert_issue_at(&mut self, repo: &str, issue: &RemoteIssue, synced_at: Timestamp) -> (r:
        Result<(), PersistenceError>)
        requires
            old(self)@.wf(),
        ensures
            final(self)@.wf(),
            final(self)@ == old(self)@.upserted(repo@, issue@, synced_at),
            r is Err <==> !old(self)@.contains(issue_key(repo@, issue@.number as nat)) && !old(
                self,
            )@.has_room(),
            r matches Err(e) ==> e == PersistenceError::IdentifiersExhausted,
    {
        let ghost before = self@;
        proof {
            lemma_upserted(before, repo@, issue@, synced_at);
        }
        match self.position_of_issue(repo, issue.number) {
            Some(at) => {
                let id = self.documents[at].id;
                let doc = issue_document(id, repo, issue, synced_at);
                self.documents.set(at, doc);
                proof {
                    assert(self@.documents =~= before.documents.update(at as int, doc@));
                }
                Ok(())
            },
            None => {
                if self.last_id == i64::MAX {
                    return Err(PersistenceError::IdentifiersExhausted);
                }
                self.last_id = self.last_id + 1;
                let doc = issue_document(self.last_id, repo, issue, synced_at);
                self.documents.push(doc);
                proof {
                    assert(self@.documents =~= before.documents.push(doc@));
                }
                Ok(())
            },
        }
    }

    /// Writes `issue` of `repo` into the store, as at the present instant.
    /// The clock is read first; where it gives no instant, the write fails
    /// and changes nothing. Whatever instant it gives, the write is that of
    /// [`Storage::upsert_issue_at`] at that instant: the store is then what
    /// [`StorageView::upserted`] makes of it, and the write fails, and
    /// changes nothing, where the issue is new to the store and no identifier
    /// is left for it.
    pub fn upsert_issue(&mut self, repo: &str, issue: &RemoteIssue) -> (r: Result<
        (),
        PersistenceError,
    >)
        requires
            old(self)@.wf(),
        ensures
            final(self)@.wf(),
            match r {
                Ok(()) => {
                    &&& old(self)@.contains(issue_key(repo@, issue@.number as nat)) || old(
                        self,
                    )@.has_room()
                    &&& exists|synced_at: Timestamp|
                        final(self)@ == #[trigger] old(self)@.upserted(repo@, issue@, synced_at)
                },
                Err(PersistenceError::IdentifiersExhausted) => {
                    &&& final(self)@ == old(self)@
                    &&& !old(self)@.contains(issue_key(repo@, issue@.number as nat))
                    &&& !old(self)@.has_room()
                },
                Err(PersistenceError::ClockUnavailable) => final(self)@ == old(self)@,
            },
    {
        match Timestamp::now() {
            Some(synced_at) => self.upsert_issue_at(repo, issue, synced_at),
            None => Err(PersistenceError::ClockUnavailable),
        }
    }

    /// The cached issue `number` of `repo`, read at the instant `now`, or
    /// `None` where the store holds no such row. A row is shown whatever its
    /// stored instant looks like: text that spells an instant gives that
    /// instant, any other text gives `now`. The store is left as it is.
    pub fn get_issue_at(&self, repo: &str, number: u64, now: Timestamp) -> (r: Option<
        StoredIssueDetail,
    >)
        requires
            self@.wf(),
        ensures
            match self@.lookup(issue_key(repo@, number as nat)) {
                Some(row) => r matches Some(detail) && detail.reads_at(row, now) && detail.number
                    == stored_number(number as nat),
                None => r is None,
            },
    {
        match self.find_issue(repo, number) {
            Some(doc) => {
                proof {
                    lemma_found_number(self@, repo@, number as nat);
                }
                let updated_at = match Timestamp::parse_rfc3339(doc.updated_at.as_str()) {
                    Some(instant) => instant,
                    None => now,
                };
                Some(StoredIssueDetail::of_document(doc, updated_at))
            },
            None => None,
        }
    }

    /// The cached issue `number` of `repo`, or `None` where the store holds
    /// no such row. A row whose stored text spells an instant is shown with
    /// that instant, and the clock is not read. For any other text the
    /// present instant takes its place: see [`Storage::get_issue_at`]. Only
    /// where such a row meets a clock that gives no instant does the reading
    /// fail.
    pub fn get_issue(&self, repo: &str, number: u64) -> (r: Result<
        Option<StoredIssueDetail>,
        PersistenceError,
    >)
        requires
            self@.wf(),
        ensures
            match self@.lookup(issue_key(repo@, number as nat)) {
                Some(row) => match r {
                    Ok(found) => found matches Some(detail) && detail.shows(
                        row,
                        detail.updated_at,
                    ) && detail.dated_by(row) && detail.number == stored_number(number as nat),
                    Err(e) => e == PersistenceError::ClockUnavailable && rfc3339_instant(
                        row.updated_at,
                    ) is None,
                },
                None => r matches Ok(None),
            },
    {
        match self.find_issue(repo, number) {
            Some(doc) => {
                proof {
                    lemma_found_number(self@, repo@, number as nat);
                }
                let updated_at = match Timestamp::parse_rfc3339(doc.updated_at.as_str()) {
                    Some(instant) => instant,
                    None => match Timestamp::now() {
                        Some(now) => now,
                        None => {
                            return Err(PersistenceError::ClockUnavailable);
                        },
                    },
                };
                Ok(Some(StoredIssueDetail::of_document(doc, updated_at)))
            },
            None => Ok(None),
        }
    }

    /// The cached issues of `repo`, from the greatest number down. Every
    /// issue row of the repository is listed once, and nothing else is.
    pub fn list_issues(&self, repo: &str) -> (issues: Vec<StoredIssueSummary>)
        requires
            self@.wf(),
        ensures
            forall|a: int, b: int|
                0 <= a < b < issues.len() ==> (#[trigger] issues[a]).number > (
                #[trigger] issues[b]).number,
            forall|j: int|
                0 <= j < issues.len() ==> self@.has_issue_like(repo@, #[trigger] issues[j]),
            forall|i: int|
                0 <= i < self@.documents.len() && (#[trigger] self@.documents[i]).repo == repo@
                    && self@.documents[i].kind() == DocumentKind::Issue ==> listed(
                    issues@,
                    self@.documents[i],
                ),
    {
        let wanted = repo.to_owned();
        let ghost all = self@.documents;
        let mut issues: Vec<StoredIssueSummary> = Vec::new();
        let ghost mut source: Seq<int> = Seq::empty();
        let mut i: usize = 0;
        while i < self.documents.len()
            invariant
                i <= self.documents.len(),
                self@.wf(),
                all == self@.documents,
                wanted@ == repo@,
                source.len() == issues.len(),
                forall|a: int, b: int|
                    0 <= a < b < issues.len() ==> (#[trigger] issues[a]).number > (
                    #[trigger] issues[b]).number,
                forall|j: int|
                    0 <= j < issues.len() ==> 0 <= #[trigger] source[j] < i && all[source[j]].repo
                        == repo@ && issues[j].summarizes(all[source[j]]),
                forall|k: int|
                    0 <= k < i && (#[trigger] all[k]).repo == repo@ ==> listed(issues@, all[k]),
            decreases self.documents.len() - i,
        {
            let doc = &self.documents[i];
            proof {
                assert(all[i as int] == doc@);
            }
            if doc.repo == wanted {
                let number = match &doc.meta {
                    KindMeta::Issue(meta) => meta.number,
                };
                proof {
                    assert forall|j: int| 0 <= j < issues.len() implies (
                    #[trigger] issues[j]).number != number by {
                        let earlier = source[j];
                        assert(all[earlier].consistent());
                        assert(all[i as int].consistent());
                        assert(self@.keys()[earlier] == all[earlier].key());
                        assert(self@.keys()[i as int] == all[i as int].key());
                        if issues[j].number == number {
                            lemma_same_issue_same_key(all[earlier], all[i as int]);
                        }
                    }
                }
                let mut at: usize = 0;
                while at < issues.len() && issues[at].number > number
                    invariant
                        at <= issues.len(),
                        forall|j: int| 0 <= j < at ==> (#[trigger] issues[j]).number > number,
                    decreases issues.len() - at,
                {
                    at += 1;
                }
                let ghost before = issues@;
                let ghost before_source = source;
                let summary = StoredIssueSummary { number, title: doc.title.clone() };
                issues.insert(at, summary);
                proof {
                    source = source.insert(at as int, i as int);
                    assert forall|a: int, b: int| 0 <= a < b < issues.len() implies (
                    #[trigger] issues[a]).number > (#[trigger] issues[b]).number by {
                        let pa = if a < at { a } else { a - 1 };
                        let pb = if b < at { b } else { b - 1 };
                        if a != at && b != at {
                            assert(issues[a] == before[pa]);
                            assert(issues[b] == before[pb]);
                        } else if a == at {
                            assert(issues[b] == before[pb]);
                            assert(before[pb].number != number);
                            if pb > at {
                                assert(before[at as int].number > before[pb].number);
                            }
                        } else {
                            assert(issues[a] == before[pa]);
                        }
                    }
                    assert forall|j: int| 0 <= j < issues.len() implies 0 <= #[trigger] source[j]
                        < i + 1 && all[source[j]].repo == repo@ && issues[j].summarizes(
                        all[source[j]],
                    ) by {
                        if j < at {
                            assert(issues[j] == before[j]);
                            assert(source[j] == before_source[j]);
                        } else if j > at {
                            assert(issues[j] == before[j - 1]);
                            assert(source[j] == before_source[j - 1]);
                        }
                    }
                    assert forall|k: int| 0 <= k < i + 1 && (#[trigger] all[k]).repo
                        == repo@ implies listed(issues@, all[k]) by {
                        if k < i {
                            assert(listed(before, all[k]));
                            let j = choose|j: int|
                                0 <= j < before.len() && (#[trigger] before[j]).summarizes(all[k]);
                            if j < at {
                                assert(issues[j] == before[j]);
                                assert(issues@[j].summarizes(all[k]));
                            } else {
                                assert(issues[j + 1] == before[j]);
                                assert(issues@[j + 1].summarizes(all[k]));
                            }
                        } else {
                            assert(issues@[at as int].summarizes(all[k]));
                        }
                    }
                }
            }
            i += 1;
        }
        proof {
            assert forall|j: int| 0 <= j < issues.len() implies self@.has_issue_like(
                repo@,
                #[trigger] issues[j],
            ) by {
                let i = source[j];
                assert(self@.documents[i].repo == repo@ && self@.documents[i].kind()
                    == DocumentKind::Issue && issues[j].summarizes(self@.documents[i]));
            }
        }
        issues
    }

    /// Opens what was read from a durable place as a store. Rows, notes and
    /// cursors are taken as they are, and the store goes on from the greatest
    /// identifier among the rows. What breaks the invariant of a store is
    /// turned down: see [`open_failure`].
    pub fn open(documents: Vec<Document>, notes: Vec<Note>, cursors: Vec<SyncCursor>) -> (r:
        Result<Storage, StorageUnavailable>)
        ensures
            match open_failure(rows(documents@), note_views(notes@), cursor_views(cursors@)) {
                None => r matches Ok(store) && store@.wf() && store@ == (StorageView {
                    documents: rows(documents@),
                    last_id: greatest_id(rows(documents@)),
                    notes: note_views(notes@),
                    cursors: cursor_views(cursors@),
                }),
                Some(e) => r matches Err(x) && x == e,
            },
    {
        let last_id = match check_documents(&documents) {
            Ok(id) => id,
            Err(e) => {
                return Err(e);
            },
        };
        match check_notes(&documents, &notes) {
            Ok(()) => {},
            Err(e) => {
                return Err(e);
            },
        }
        match check_cursors(&cursors) {
            Ok(()) => {},
            Err(e) => {
                return Err(e);
            },
        }
        let store = Storage { documents, last_id, notes, cursors };
        proof {
            let all = store@.documents;
            let keys = store@.keys();
            assert forall|p: int, q: int|
                0 <= p < keys.len() && 0 <= q < keys.len() && p != q implies keys[p] != keys[q] by {
                if p < q {
                    assert(all[p].key() != all[q].key());
                } else {
                    assert(all[q].key() != all[p].key());
                }
            }
        }
        Ok(store)
    }
}

/// Looks the rows over: each agrees with its metadata, and no two share an
/// identifier or a key. The answer is the greatest identifier among them.
fn check_documents(documents: &Vec<Document>) -> (r: Result<i64, StorageUnavailable>)
    ensures
        match r {
            Ok(id) => {
                &&& all_consistent(rows(documents@))
                &&& distinct_ids(rows(documents@))
                &&& distinct_keys(rows(documents@))
                &&& 0 <= id == greatest_id(rows(documents@))
                &&& forall|k: int|
                    0 <= k < documents.len() ==> (#[trigger] rows(documents@)[k]).id <= id
            },
            Err(e) => if !all_consistent(rows(documents@)) {
                e == StorageUnavailable::InconsistentDocument
            } else if !distinct_ids(rows(documents@)) {
                e == StorageUnavailable::DuplicateIdentifier
            } else {
                !distinct_keys(rows(documents@)) && e == StorageUnavailable::DuplicateDocument
            },
        },
{
    let ghost all = rows(documents@);
    let mut last_id: i64 = 0;
    let mut i: usize = 0;
    while i < documents.len()
        invariant
            i <= documents.len(),
            all == rows(documents@),
            all_consistent(all.take(i as int)),
            0 <= last_id == greatest_id(all.take(i as int)),
            forall|k: int| 0 <= k < i ==> (#[trigger] all[k]).id <= last_id,
        decreases documents.len() - i,
    {
        let doc = &documents[i];
        proof {
            assert(all[i as int] == doc@);
            assert(all.take(i + 1).drop_last() =~= all.take(i as int));
        }
        let agrees = match &doc.meta {
            KindMeta::Issue(meta) => doc.external_id == to_decimal(
                to_remote_number(meta.number),
            ),
        };
        if !agrees {
            proof {
                assert(!all[i as int].consistent());
            }
            return Err(StorageUnavailable::InconsistentDocument);
        }
        if doc.id > last_id {
            last_id = doc.id;
        }
        proof {
            assert forall|k: int| 0 <= k < i + 1 implies (#[trigger] all.take(
                i + 1,
            )[k]).consistent() by {
                if k < i {
                    assert(all.take(i as int)[k].consistent());
                }
            }
        }
        i += 1;
    }
    proof {
        assert(all.take(i as int) =~= all);
    }
    let mut a: usize = 0;
    while a < documents.len()
        invariant
            a <= documents.len(),
            all == rows(documents@),
            all_consistent(all),
            forall|p: int, q: int|
                0 <= p < q < documents.len() && p < a ==> (#[trigger] all[p]).id != (
                #[trigger] all[q]).id,
        decreases documents.len() - a,
    {
        let mut b: usize = a + 1;
        while b < documents.len()
            invariant
                a < b <= documents.len(),
                all == rows(documents@),
                all_consistent(all),
                forall|q: int| a < q < b ==> all[a as int].id != (#[trigger] all[q]).id,
            decreases documents.len() - b,
        {
            if documents[a].id == documents[b].id {
                proof {
                    assert(all[a as int].id == all[b as int].id);
                }
                return Err(StorageUnavailable::DuplicateIdentifier);
            }
            b += 1;
        }
        a += 1;
    }
    let mut a: usize = 0;
    while a < documents.len()
        invariant
            a <= documents.len(),
            all == rows(documents@),
            all_consistent(all),
            distinct_ids(all),
            forall|p: int, q: int|
                0 <= p < q < documents.len() && p < a ==> (#[trigger] all[p]).key() != (
                #[trigger] all[q]).key(),
        decreases documents.len() - a,
    {
        let mut b: usize = a + 1;
        while b < documents.len()
            invariant
                a < b <= documents.len(),
                all == rows(documents@),
                all_consistent(all),
                distinct_ids(all),
                forall|q: int| a < q < b ==> all[a as int].key() != (#[trigger] all[q]).key(),
            decreases documents.len() - b,
        {
            if documents[a].repo == documents[b].repo && documents[a].external_id
                == documents[b].external_id {
                proof {
                    assert(all[a as int].key() == all[b as int].key());
                }
                return Err(StorageUnavailable::DuplicateDocument);
            }
            b += 1;
        }
        a += 1;
    }
    Ok(last_id)
}

/// Looks the notes over: no two share an identifier, and each belongs to one
/// of the rows.
fn check_notes(documents: &Vec<Document>, notes: &Vec<Note>) -> (r: Result<
    (),
    StorageUnavailable,
>)
    ensures
        match r {
            Ok(()) => distinct_notes(note_views(notes@)) && notes_owned(
                rows(documents@),
                note_views(notes@),
            ),
            Err(e) => if !distinct_notes(note_views(notes@)) {
                e == StorageUnavailable::DuplicateNote
            } else {
                !notes_owned(rows(documents@), note_views(notes@)) && e
                    == StorageUnavailable::OrphanNote
            },
        },
{
    let ghost all = note_views(notes@);
    let ghost docs = rows(documents@);
    let mut a: usize = 0;
    while a < notes.len()
        invariant
            a <= notes.len(),
            all == note_views(notes@),
            forall|p: int, q: int|
                0 <= p < q < notes.len() && p < a ==> (#[trigger] all[p]).id != (
                #[trigger] all[q]).id,
        decreases notes.len() - a,
    {
        let mut b: usize = a + 1;
        while b < notes.len()
            invariant
                a < b <= notes.len(),
                all == note_views(notes@),
                forall|q: int| a < q < b ==> all[a as int].id != (#[trigger] all[q]).id,
            decreases notes.len() - b,
        {
            if notes[a].id == notes[b].id {
                proof {
                    assert(all[a as int].id == all[b as int].id);
                }
                return Err(StorageUnavailable::DuplicateNote);
            }
            b += 1;
        }
        a += 1;
    }
    let mut n: usize = 0;
    while n < notes.len()
        invariant
            n <= notes.len(),
            all == note_views(notes@),
            docs == rows(documents@),
            distinct_notes(all),
            notes_owned(docs, all.take(n as int)),
        decreases notes.len() - n,
    {
        let wanted = notes[n].document_id;
        let mut i: usize = 0;
        while i < documents.len() && documents[i].id != wanted
            invariant
                i <= documents.len(),
                docs == rows(documents@),
                forall|k: int| 0 <= k < i ==> (#[trigger] docs[k]).id != wanted,
            decreases documents.len() - i,
        {
            i += 1;
        }
        if i == documents.len() {
            proof {
                assert(all[n as int].document_id == wanted);
            }
            return Err(StorageUnavailable::OrphanNote);
        }
        proof {
            assert(docs[i as int].id == all[n as int].document_id);
            assert forall|m: int| 0 <= m < n + 1 implies exists|k: int|
                0 <= k < docs.len() && (#[trigger] docs[k]).id == (#[trigger] all.take(
                    n + 1,
                )[m]).document_id by {
                if m < n {
                    assert(all.take(n as int)[m] == all[m]);
                    let k = choose|k: int|
                        0 <= k < docs.len() && (#[trigger] docs[k]).id == all.take(
                            n as int,
                        )[m].document_id;
                    assert(docs[k].id == all.take(n + 1)[m].document_id);
                } else {
                    assert(docs[i as int].id == all.take(n + 1)[m].document_id);
                }
            }
        }
        n += 1;
    }
    proof {
        assert(all.take(n as int) =~= all);
    }
    Ok(())
}

/// Looks the cursors over: no two share repository and resource.
fn check_cursors(cursors: &Vec<SyncCursor>) -> (r: Result<(), StorageUnavailable>)
    ensures
        match r {
            Ok(()) => distinct_cursors(cursor_views(cursors@)),
            Err(e) => !distinct_cursors(cursor_views(cursors@)) && e
                == StorageUnavailable::DuplicateCursor,
        },
{
    let ghost all = cursor_views(cursors@);
    let mut a: usize = 0;
    while a < cursors.len()
        invariant
            a <= cursors.len(),
            all == cursor_views(cursors@),
            forall|p: int, q: int|
                0 <= p < q < cursors.len() && p < a ==> (#[trigger] all[p]).slot() != (
                #[trigger] all[q]).slot(),
        decreases cursors.len() - a,
    {
        let mut b: usize = a + 1;
        while b < cursors.len()
            invariant
                a < b <= cursors.len(),
                all == cursor_views(cursors@),
                forall|q: int| a < q < b ==> all[a as int].slot() != (#[trigger] all[q]).slot(),
            decreases cursors.len() - b,
        {
            if cursors[a].repo == cursors[b].repo && cursors[a].resource == cursors[b].resource {
                proof {
                    assert(all[a as int].slot() == all[b as int].slot());
                }
                return Err(StorageUnavailable::DuplicateCursor);
            }
            b += 1;
        }
        a += 1;
    }
    Ok(())
}

/// The row that is found for an issue bears the number of the issue, in its
/// stored form.
proof fn lemma_found_number(s: StorageView, repo: Seq<char>, number: nat)
    requires
        s.wf(),
        number <= u64::MAX,
        s.contains(issue_key(repo, number)),
    ensures
        s.lookup(issue_key(repo, number))->0.issue_number() == stored_number(number),
{
    let key = issue_key(repo, number);
    let at = first_index(s.keys(), key);
    lemma_first_index_found(s.keys(), key);
    let row = s.documents[at];
    assert(s.keys()[at] == row.key());
    assert(row.consistent());
    lemma_decimal_text_injective(remote_number(row.issue_number()), number);
}

/// Two consistent issue rows of one repository with one number have one key.
proof fn lemma_same_issue_same_key(a: DocumentView, b: DocumentView)
    requires
        a.consistent(),
        b.consistent(),
        a.repo == b.repo,
        a.issue_number() == b.issue_number(),
    ensures
        a.key() == b.key(),
{
}

/// What one write does to a store. The store stays well formed. The issue
/// is held afterwards exactly where it was held before or an identifier was
/// left; its row is the one written, under the identifier that the row had
/// before or, for a new row, the next one. Every other key finds what it
/// found before.
pub proof fn lemma_upserted(
    s: StorageView,
    repo: Seq<char>,
    issue: RemoteIssueView,
    synced_at: Timestamp,
)
    requires
        s.wf(),
    ensures
        ({
            let key = issue_key(repo, issue.number as nat);
            let after = s.upserted(repo, issue, synced_at);
            &&& after.wf()
            &&& after.contains(key) <==> s.contains(key) || s.has_room()
            &&& s.contains(key) ==> after.keys() == s.keys() && after.last_id == s.last_id
                && after.lookup(key) == Some(
                issue_row(s.lookup(key)->0.id, repo, issue, synced_at),
            )
            &&& !s.contains(key) && s.has_room() ==> after.keys() == s.keys().push(key)
                && after.last_id == s.last_id + 1 && after.lookup(key) == Some(
                issue_row(s.last_id + 1, repo, issue, synced_at),
            )
            &&& forall|other: DocKey| other != key ==> after.lookup(other) == s.lookup(other)
        }),
{
    let key = issue_key(repo, issue.number as nat);
    let after = s.upserted(repo, issue, synced_at);
    if s.contains(key) {
        let at = first_index(s.keys(), key);
        lemma_first_index_found(s.keys(), key);
        let row = issue_row(s.documents[at].id, repo, issue, synced_at);
        assert(row.key() == key);
        assert(after.keys() =~= s.keys());
        assert(row.consistent());
        assert forall|i: int| 0 <= i < after.documents.len() implies (
        #[trigger] after.documents[i]).id <= after.last_id && after.documents[i].consistent() by {
            if i != at {
                assert(after.documents[i] == s.documents[i]);
            } else {
                assert(s.documents[i].id == row.id);
            }
        }
        assert forall|i: int, j: int| 0 <= i < j < after.documents.len() implies (
        #[trigger] after.documents[i]).id != (#[trigger] after.documents[j]).id by {
            assert(after.documents[i].id == s.documents[i].id);
            assert(after.documents[j].id == s.documents[j].id);
        }
        assert forall|other: DocKey| other != key implies after.lookup(other) == s.lookup(
            other,
        ) by {
            if s.contains(other) {
                lemma_first_index_found(s.keys(), other);
            }
        }
        assert forall|n: int| 0 <= n < after.notes.len() implies exists|i: int|
            0 <= i < after.documents.len() && (#[trigger] after.documents[i]).id == (
            #[trigger] after.notes[n]).document_id by {
            let i = choose|i: int|
                0 <= i < s.documents.len() && (#[trigger] s.documents[i]).id
                    == s.notes[n].document_id;
            assert(after.documents[i].id == s.documents[i].id);
        }
    } else if s.has_room() {
        let row = issue_row(s.last_id + 1, repo, issue, synced_at);
        assert(row.key() == key);
        assert(after.keys() =~= s.keys().push(key));
        assert(row.consistent());
        assert(after.keys().no_duplicates()) by {
            assert forall|i: int, j: int|
                0 <= i < after.keys().len() && 0 <= j < after.keys().len() && i != j implies after.keys()[i]
                != after.keys()[j] by {
                if i < s.keys().len() && j < s.keys().len() {
                    assert(after.keys()[i] == s.keys()[i]);
                    assert(after.keys()[j] == s.keys()[j]);
                } else if i < s.keys().len() {
                    assert(s.keys()[i] != key);
                } else {
                    assert(s.keys()[j] != key);
                }
            }
        }
        assert forall|i: int| 0 <= i < after.documents.len() implies (
        #[trigger] after.documents[i]).id <= after.last_id && after.documents[i].consistent() by {
            if i < s.documents.len() {
                assert(after.documents[i] == s.documents[i]);
            }
        }
        assert forall|i: int, j: int| 0 <= i < j < after.documents.len() implies (
        #[trigger] after.documents[i]).id != (#[trigger] after.documents[j]).id by {
            assert(after.documents[i] == s.documents[i]);
            if j < s.documents.len() {
                assert(after.documents[j] == s.documents[j]);
            }
        }
        assert forall|n: int| 0 <= n < after.notes.len() implies exists|i: int|
            0 <= i < after.documents.len() && (#[trigger] after.documents[i]).id == (
            #[trigger] after.notes[n]).document_id by {
            let i = choose|i: int|
                0 <= i < s.documents.len() && (#[trigger] s.documents[i]).id
                    == s.notes[n].document_id;
            assert(after.documents[i] == s.documents[i]);
        }
        assert(after.keys()[s.keys().len() as int] == key);
        lemma_first_index_is(after.keys(), key, s.keys().len() as int);
        assert forall|other: DocKey| other != key implies after.lookup(other) == s.lookup(
            other,
        ) by {
            if s.contains(other) {
                lemma_first_index_found(s.keys(), other);
                let at = first_index(s.keys(), other);
                assert(after.keys()[at] == other);
                lemma_first_index_is(after.keys(), other, at);
            } else if after.contains(other) {
                let k = choose|k: int| 0 <= k < after.keys().len() && after.keys()[k] == other;
                assert(s.keys()[k] == other);
            }
        }
    }
}

/// Writing an issue again leaves one row for it: two writes of issues with
/// one number into one repository end where the second write alone would
/// have ended. The row keeps the identifier and the key that the first
/// write gave or found, no row is added, and every field that a write sets
/// is that of the second write.
pub proof fn lemma_upsert_overwrites(
    s: StorageView,
    repo: Seq<char>,
    first: RemoteIssueView,
    second: RemoteIssueView,
    first_at: Timestamp,
    second_at: Timestamp,
)
    requires
        s.wf(),
        first.number == second.number,
    ensures
        ({
            let key = issue_key(repo, first.number as nat);
            let once = s.upserted(repo, first, first_at);
            let twice = once.upserted(repo, second, second_at);
            &&& twice == s.upserted(repo, second, second_at)
            &&& twice.keys() == once.keys()
            &&& twice.last_id == once.last_id
            &&& twice.documents.len() == once.documents.len()
            &&& forall|i: int|
                0 <= i < once.documents.len() ==> (#[trigger] twice.documents[i]).id
                    == once.documents[i].id
            &&& once.contains(key) ==> twice.lookup(key) == Some(
                issue_row(once.lookup(key)->0.id, repo, second, second_at),
            )
        }),
{
    let key = issue_key(repo, first.number as nat);
    let once = s.upserted(repo, first, first_at);
    let twice = once.upserted(repo, second, second_at);
    let direct = s.upserted(repo, second, second_at);
    lemma_upserted(s, repo, first, first_at);
    lemma_upserted(s, repo, second, second_at);
    lemma_upserted(once, repo, second, second_at);
    if s.contains(key) {
        lemma_first_index_found(s.keys(), key);
        assert(twice.documents =~= direct.documents);
    } else if s.has_room() {
        let at = s.keys().len() as int;
        assert(once.keys()[at] == key);
        lemma_first_index_is(once.keys(), key, at);
        assert(twice.documents =~= direct.documents);
    }
    if once.contains(key) {
        lemma_first_index_found(once.keys(), key);
    }
}

/// Writing the same issue twice changes nothing but the instant of the
/// write: the store holds one row for the issue, and after the second write
/// every row is what it was after the first, but for the instant of
/// synchronization of that one row, which is that of the second write.
pub proof fn lemma_upsert_idempotent(
    s: StorageView,
    repo: Seq<char>,
    issue: RemoteIssueView,
    first_at: Timestamp,
    second_at: Timestamp,
)
    requires
        s.wf(),
    ensures
        ({
            let key = issue_key(repo, issue.number as nat);
            let once = s.upserted(repo, issue, first_at);
            let twice = once.upserted(repo, issue, second_at);
            &&& twice.documents.len() == once.documents.len()
            &&& twice.last_id == once.last_id
            &&& forall|i: int|
                0 <= i < once.documents.len() ==> #[trigger] twice.documents[i] == (DocumentView {
                    synced_at: if once.documents[i].key() == key {
                        second_at.text()
                    } else {
                        once.documents[i].synced_at
                    },
                    ..once.documents[i]
                })
        }),
{
    let key = issue_key(repo, issue.number as nat);
    let once = s.upserted(repo, issue, first_at);
    let twice = once.upserted(repo, issue, second_at);
    lemma_upserted(s, repo, issue, first_at);
    lemma_upserted(once, repo, issue, second_at);
    if once.contains(key) {
        lemma_first_index_found(once.keys(), key);
        let at = first_index(once.keys(), key);
        assert forall|i: int| 0 <= i < once.documents.len() implies #[trigger] twice.documents[i]
            == (DocumentView {
            synced_at: if once.documents[i].key() == key {
                second_at.text()
            } else {
                once.documents[i].synced_at
            },
            ..once.documents[i]
        }) by {
            assert(once.keys()[i] == once.documents[i].key());
            if i != at {
                assert(once.keys()[i] != once.keys()[at]);
            } else {
                assert(once.lookup(key) == Some(once.documents[at]));
            }
        }
    } else {
        assert forall|i: int| 0 <= i < once.documents.len() implies once.documents[i].key()
            != key by {
            assert(once.keys()[i] == once.documents[i].key());
        }
    }
}

/// Repositories do not touch each other: the same issue number written
/// under two repositories gives two rows with two identifiers, and a write
/// under one repository leaves every row of every other repository as it
/// was.
pub proof fn lemma_repositories_isolated(
    s: StorageView,
    repo: Seq<char>,
    issue: RemoteIssueView,
    synced_at: Timestamp,
    other_repo: Seq<char>,
)
    requires
        s.wf(),
        repo != other_repo,
    ensures
        ({
            let after = s.upserted(repo, issue, synced_at);
            &&& forall|number: nat| #[trigger]
                after.lookup(issue_key(other_repo, number)) == s.lookup(
                    issue_key(other_repo, number),
                )
            &&& forall|number: nat|
                after.contains(issue_key(repo, issue.number as nat)) && after.contains(
                    #[trigger] issue_key(other_repo, number),
                ) ==> after.lookup(issue_key(repo, issue.number as nat))->0.id != after.lookup(
                    issue_key(other_repo, number),
                )->0.id
        }),
{
    let key = issue_key(repo, issue.number as nat);
    let after = s.upserted(repo, issue, synced_at);
    lemma_upserted(s, repo, issue, synced_at);
    assert forall|number: nat| #[trigger]
        after.lookup(issue_key(other_repo, number)) == s.lookup(
            issue_key(other_repo, number),
        ) by {
        assert(issue_key(other_repo, number) != key);
    }
    assert forall|number: nat|
        after.contains(key) && after.contains(
            #[trigger] issue_key(other_repo, number),
        ) implies after.lookup(key)->0.id != after.lookup(issue_key(other_repo, number))->0.id by {
        let other = issue_key(other_repo, number);
        lemma_first_index_found(after.keys(), key);
        lemma_first_index_found(after.keys(), other);
        let a = first_index(after.keys(), key);
        let b = first_index(after.keys(), other);
        assert(a != b);
        if a < b {
            assert(after.documents[a].id != after.documents[b].id);
        } else {
            assert(after.documents[b].id != after.documents[a].id);
        }
    }
}

} // verus!
