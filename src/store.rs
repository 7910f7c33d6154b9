//! The note store: notes, subjects, the note-subject association table, the
//! denormalized search rows that mirror it, and the term index, changed
//! together by each operation or not at all.

use vstd::prelude::*;

use crate::model::{
    NoteBuilder, NoteData, NoteId, NoteSearch, NoteView, StoreError, SubjectData, SubjectId, SubjectView,
    TaskState, Timestamp, NIL_SUBJECT,
};
use crate::terms::{dec, inc, TermIndex};
use crate::text::{counts_match, normal_text, terms_of};

verus! {

/// Where the store keeps its data.
#[derive(Debug)]
pub enum ConnectionType {
    InMemory,
    File(std::path::PathBuf),
}

/// Declares `std::path::PathBuf`, which the store only carries.
#[verifier::external_type_specification]
#[verifier::external_body]
pub struct ExPathBuf(std::path::PathBuf);

/// One row of the notes table.
pub struct NoteRow {
    pub rowid: i64,
    pub id: NoteId,
    pub text: String,
    pub task_state: TaskState,
    pub created_at: Timestamp,
    pub modified_at: Timestamp,
    pub done_at: Option<Timestamp>,
}

/// The mathematical value of a note row.
pub struct NoteRowView {
    pub rowid: i64,
    pub id: NoteId,
    pub text: Seq<char>,
    pub task_state: TaskState,
    pub created_at: Timestamp,
    pub modified_at: Timestamp,
    pub done_at: Option<Timestamp>,
}

impl View for NoteRow {
    type V = NoteRowView;

    open spec fn view(&self) -> NoteRowView {
        NoteRowView {
            rowid: self.rowid,
            id: self.id,
            text: self.text@,
            task_state: self.task_state,
            created_at: self.created_at,
            modified_at: self.modified_at,
            done_at: self.done_at,
        }
    }
}

/// One row of the subjects table.
pub struct SubjectRow {
    pub id: SubjectId,
    pub name: String,
    pub parent_id: Option<SubjectId>,
}

/// The mathematical value of a subject row.
pub struct SubjectRowView {
    pub id: SubjectId,
    pub name: Seq<char>,
    pub parent_id: Option<SubjectId>,
}

impl View for SubjectRow {
    type V = SubjectRowView;

    open spec fn view(&self) -> SubjectRowView {
        SubjectRowView { id: self.id, name: self.name@, parent_id: self.parent_id }
    }
}

/// One row of the denormalized search table: an association with the
/// note's creation time and task state copied beside it.
#[derive(Debug, Clone, Copy, PartialEq, Eq, Structural)]
pub struct SearchRow {
    pub note_id: NoteId,
    pub subject_id: SubjectId,
    pub created_at: Timestamp,
    pub task_state: TaskState,
}

/// The mathematical value of a store.
pub struct StoreView {
    pub notes: Seq<NoteRowView>,
    pub subjects: Seq<SubjectRowView>,
    pub links: Seq<(NoteId, SubjectId)>,
    pub rows: Seq<SearchRow>,
    pub terms: Map<Seq<char>, u64>,
    pub next_rowid: i64,
}

/// The transactional store of notes and subjects.
pub struct Store {
    notes: Vec<NoteRow>,
    subjects: Vec<SubjectRow>,
    links: Vec<(NoteId, SubjectId)>,
    rows: Vec<SearchRow>,
    terms: TermIndex,
    next_rowid: i64,
}

/// Whether a note with this identifier is stored.
pub open spec fn has_note(v: StoreView, id: NoteId) -> bool {
    exists|i: int| 0 <= i < v.notes.len() && v.notes[i].id == id
}

/// Where the note with this identifier stands in a notes table.
pub open spec fn note_pos(notes: Seq<NoteRowView>, id: NoteId) -> int {
    choose|i: int| 0 <= i < notes.len() && notes[i].id == id
}

/// Whether a subject with this identifier is stored.
pub open spec fn has_subject(v: StoreView, id: SubjectId) -> bool {
    exists|i: int| 0 <= i < v.subjects.len() && v.subjects[i].id == id
}

/// The search row that mirrors an association of a stored note.
pub open spec fn mirror(notes: Seq<NoteRowView>, l: (NoteId, SubjectId)) -> SearchRow {
    let n = notes[note_pos(notes, l.0)];
    SearchRow { note_id: l.0, subject_id: l.1, created_at: n.created_at, task_state: n.task_state }
}

/// The invariant of the tables.
pub open spec fn tables_wf(v: StoreView) -> bool {
    &&& forall|i: int, j: int|
        0 <= i < j < v.notes.len() ==> v.notes[i].id != v.notes[j].id && v.notes[i].rowid
            < v.notes[j].rowid
    &&& forall|i: int| 0 <= i < v.notes.len() ==> 0 < #[trigger] v.notes[i].rowid < v.next_rowid
    &&& 0 < v.next_rowid
    &&& forall|i: int, j: int|
        0 <= i < j < v.subjects.len() ==> v.subjects[i].id != v.subjects[j].id
    &&& forall|i: int, j: int| 0 <= i < j < v.links.len() ==> v.links[i] != v.links[j]
    &&& forall|i: int| 0 <= i < v.links.len() ==> has_note(v, #[trigger] v.links[i].0)
    &&& v.rows.len() == v.links.len()
    &&& forall|i: int| 0 <= i < v.links.len() ==> #[trigger] v.rows[i] == mirror(v.notes, v.links[i])
}

/// The subjects under which a note is stored: the given ones, or the nil
/// subject when none is given.
pub open spec fn or_nil(s: Seq<SubjectId>) -> Seq<SubjectId> {
    if s.len() == 0 {
        seq![SubjectId(NIL_SUBJECT)]
    } else {
        s
    }
}

/// The associations of a note with each of these subjects.
pub open spec fn links_for(id: NoteId, s: Seq<SubjectId>) -> Seq<(NoteId, SubjectId)> {
    s.map_values(|x: SubjectId| (id, x))
}

/// The term counts with one more note for each term of a text.
pub open spec fn added_terms(m: Map<Seq<char>, u64>, text: Seq<char>) -> Map<Seq<char>, u64> {
    Map::new(
        |t: Seq<char>| m.dom().contains(t),
        |t: Seq<char>|
            if terms_of(normal_text(text)).count(t) > 0 {
                inc(m[t])
            } else {
                m[t]
            },
    )
}

/// The term counts with one note less for each term of a text.
pub open spec fn removed_terms(m: Map<Seq<char>, u64>, text: Seq<char>) -> Map<Seq<char>, u64> {
    Map::new(
        |t: Seq<char>| m.dom().contains(t),
        |t: Seq<char>|
            if terms_of(normal_text(text)).count(t) > 0 {
                dec(m[t])
            } else {
                m[t]
            },
    )
}

/// The row that stores a note under a row number.
pub open spec fn row_of(n: NoteView, rowid: i64) -> NoteRowView {
    NoteRowView {
        rowid,
        id: n.id,
        text: n.text,
        task_state: n.task_state,
        created_at: n.created_at,
        modified_at: n.modified_at,
        done_at: n.done_at,
    }
}

/// Whether a sequence holds no element twice.
pub open spec fn distinct<T>(s: Seq<T>) -> bool {
    forall|i: int, j: int| 0 <= i < j < s.len() ==> s[i] != s[j]
}

/// Whether a note can be inserted: its identifier is new, its subjects are
/// distinct, and a row number is left.
pub open spec fn can_insert(v: StoreView, n: NoteView) -> bool {
    !has_note(v, n.id) && distinct(n.subjects) && v.next_rowid < i64::MAX
}

/// The store after inserting a note: its row under the next row number, one
/// association per subject (or with the nil subject), and its terms counted.
pub open spec fn inserted(v: StoreView, n: NoteView) -> StoreView {
    let ls = links_for(n.id, or_nil(n.subjects));
    StoreView {
        notes: v.notes.push(row_of(n, v.next_rowid)),
        subjects: v.subjects,
        links: v.links + ls,
        rows: v.rows + ls.map_values(
            |l: (NoteId, SubjectId)|
                SearchRow {
                    note_id: l.0,
                    subject_id: l.1,
                    created_at: n.created_at,
                    task_state: n.task_state,
                },
        ),
        terms: added_terms(v.terms, n.text),
        next_rowid: (v.next_rowid + 1) as i64,
    }
}

/// The elements of a sequence for which a predicate holds, in order.
pub open spec fn kept<T>(s: Seq<T>, p: spec_fn(T) -> bool) -> Seq<T>
    decreases s.len(),
{
    if s.len() == 0 {
        Seq::empty()
    } else {
        let r = kept(s.drop_last(), p);
        if p(s.last()) {
            r.push(s.last())
        } else {
            r
        }
    }
}

/// Whether an association survives removing those of a note or of a subject.
pub open spec fn link_stays(note: Option<NoteId>, subject: Option<SubjectId>, l: (NoteId, SubjectId)) -> bool {
    note != Some(l.0) && subject != Some(l.1)
}

/// Whether a search row survives removing those of a note or of a subject.
pub open spec fn row_stays(note: Option<NoteId>, subject: Option<SubjectId>, r: SearchRow) -> bool {
    note != Some(r.note_id) && subject != Some(r.subject_id)
}

/// The store after deleting a stored note: its row, its associations and
/// search rows gone, its terms counted one note less.
pub open spec fn deleted(v: StoreView, id: NoteId) -> StoreView {
    let p = note_pos(v.notes, id);
    StoreView {
        notes: v.notes.remove(p),
        subjects: v.subjects,
        links: kept(v.links, |l: (NoteId, SubjectId)| link_stays(Some(id), None, l)),
        rows: kept(v.rows, |r: SearchRow| row_stays(Some(id), None, r)),
        terms: removed_terms(v.terms, v.notes[p].text),
        next_rowid: v.next_rowid,
    }
}

/// An element of a kept subsequence satisfies the predicate.
pub proof fn lemma_kept_element<T>(s: Seq<T>, p: spec_fn(T) -> bool, x: T, k: int)
    requires
        0 <= k < kept(s, p).len(),
        kept(s, p)[k] == x,
    ensures
        p(x),
{
    lemma_kept_contains(s, p, x);
}

/// An element of a kept subsequence stands in the sequence and satisfies the predicate.
pub proof fn lemma_kept_contains<T>(s: Seq<T>, p: spec_fn(T) -> bool, x: T)
    ensures
        kept(s, p).contains(x) ==> s.contains(x) && p(x),
    decreases s.len(),
{
    if s.len() > 0 {
        lemma_kept_contains(s.drop_last(), p, x);
        if kept(s, p).contains(x) && kept(s.drop_last(), p).contains(x) {
            let k = choose|k: int| 0 <= k < s.drop_last().len() && s.drop_last()[k] == x;
            assert(s[k] == x);
        }
    }
}

/// Whether identifiers are in strictly ascending order.
pub open spec fn ascending(s: Seq<SubjectId>) -> bool {
    forall|i: int, j: int| 0 <= i < j < s.len() ==> s[i].0 < s[j].0
}

/// Whether `n` is the note that the store hands out for identifier `id`:
/// the fields of its row, and its subjects (the nil subject left out) in
/// ascending order of identifier.
pub open spec fn note_data(v: StoreView, id: NoteId, n: NoteView) -> bool {
    let row = v.notes[note_pos(v.notes, id)];
    &&& n.rowid == row.rowid
    &&& n.id == id
    &&& n.text == row.text
    &&& n.task_state == row.task_state
    &&& n.created_at == row.created_at
    &&& n.modified_at == row.modified_at
    &&& n.done_at == row.done_at
    &&& ascending(n.subjects)
    &&& forall|s: SubjectId|
        #![trigger n.subjects.contains(s)]
        n.subjects.contains(s) <==> (s.0 != NIL_SUBJECT && v.links.contains((id, s)))
}

/// The number of notes that `find_notes` hands out at most.
pub const PAGE_SIZE: usize = 200;

/// Whether the note at position `i` is one that a search looks for: under
/// its subject, if any, and a task, if only tasks are asked for.
pub open spec fn note_matches(v: StoreView, q: NoteSearch, i: int) -> bool {
    &&& match q.subject_id {
        Some(s) => v.links.contains((v.notes[i].id, s)),
        None => true,
    }
    &&& (q.task_only ==> v.notes[i].task_state != TaskState::NotATask)
}

/// Whether the note at position `i` comes before the one at `j` in a listing:
/// to-do before done when tasks come first, then the newer first, then the
/// one stored later first.
pub open spec fn ranks_before(notes: Seq<NoteRowView>, tasks_first: bool, i: int, j: int) -> bool {
    let a = notes[i];
    let b = notes[j];
    if tasks_first && a.task_state.rank() != b.task_state.rank() {
        a.task_state.rank() < b.task_state.rank()
    } else if a.created_at != b.created_at {
        a.created_at > b.created_at
    } else {
        i > j
    }
}

/// Whether positions list the first `limit` matching notes of a search, in order.
pub open spec fn is_ranking(v: StoreView, q: NoteSearch, p: Seq<usize>, limit: int) -> bool {
    &&& p.len() <= limit
    &&& forall|k: int| 0 <= k < p.len() ==> p[k] < v.notes.len() && note_matches(v, q, #[trigger] p[k] as int)
    &&& forall|k: int, l: int|
        0 <= k < l < p.len() ==> ranks_before(v.notes, q.task_only, #[trigger] p[k] as int, #[trigger] p[l] as int)
    &&& forall|i: int|
        0 <= i < v.notes.len() && note_matches(v, q, i) ==> p.contains(i as usize) || (p.len()
            == limit && (p.len() == 0 || ranks_before(v.notes, q.task_only, p.last() as int, i)))
}

/// Whether identifiers list the first `limit` matching notes of a search, in order.
pub open spec fn is_listing(v: StoreView, q: NoteSearch, r: Seq<NoteId>, limit: int) -> bool {
    &&& r.len() <= limit
    &&& forall|k: int|
        0 <= k < r.len() ==> has_note(v, #[trigger] r[k]) && note_matches(v, q, note_pos(v.notes, r[k]))
    &&& forall|k: int, l: int|
        0 <= k < l < r.len() ==> ranks_before(
            v.notes,
            q.task_only,
            note_pos(v.notes, #[trigger] r[k]),
            note_pos(v.notes, #[trigger] r[l]),
        )
    &&& forall|i: int|
        0 <= i < v.notes.len() && note_matches(v, q, i) ==> r.contains(v.notes[i].id) || (r.len()
            == limit && (r.len() == 0 || ranks_before(
            v.notes,
            q.task_only,
            note_pos(v.notes, r.last()),
            i,
        )))
}

/// Whether a note with this row number is stored.
pub open spec fn has_rowid(v: StoreView, x: i64) -> bool {
    exists|i: int| 0 <= i < v.notes.len() && v.notes[i].rowid == x
}

/// The term counts rebuilt from the texts of these notes.
pub open spec fn terms_from(notes: Seq<NoteRowView>) -> Map<Seq<char>, u64>
    decreases notes.len(),
{
    if notes.len() == 0 {
        Map::new(|t: Seq<char>| true, |t: Seq<char>| 0u64)
    } else {
        added_terms(terms_from(notes.drop_last()), notes.last().text)
    }
}

/// One term of a draft text with its two counts: occurrences in the text,
/// and notes of the store that hold it.
pub struct TermCandidate {
    pub term: String,
    pub in_text: usize,
    pub in_notes: u64,
}

/// What similarity ranking needs to know of a draft text.
pub struct TermStats {
    /// The number of stored notes.
    pub total_notes: usize,
    /// The number of distinct terms of the text.
    pub distinct_terms: usize,
    /// The distinct terms of the text that some stored note holds.
    pub candidates: Vec<TermCandidate>,
}

/// Where the subject with this identifier stands in a subjects table.
pub open spec fn subject_pos(subjects: Seq<SubjectRowView>, id: SubjectId) -> int {
    choose|i: int| 0 <= i < subjects.len() && subjects[i].id == id
}

/// Whether a subject other than `except` has this name under this parent.
pub open spec fn name_taken(
    v: StoreView,
    name: Seq<char>,
    parent: Option<SubjectId>,
    except: Option<SubjectId>,
) -> bool {
    exists|j: int|
        0 <= j < v.subjects.len() && v.subjects[j].name == name && v.subjects[j].parent_id == parent
            && Some(v.subjects[j].id) != except
}

/// Whether `d` is the subject that the store hands out for identifier `id`:
/// the fields of its row, and its children (the nil subject left out) in
/// ascending order of identifier.
#[verifier::opaque]
pub open spec fn subject_data(v: StoreView, id: SubjectId, d: SubjectView) -> bool {
    let row = v.subjects[subject_pos(v.subjects, id)];
    &&& d.id == id
    &&& d.name == row.name
    &&& d.parent_id == row.parent_id
    &&& ascending(d.children)
    &&& forall|c: SubjectId|
        #![trigger d.children.contains(c)]
        d.children.contains(c) <==> (c.0 != NIL_SUBJECT && exists|j: int|
            0 <= j < v.subjects.len() && v.subjects[j].id == c && v.subjects[j].parent_id == Some(
                id,
            ))
}

/// Whether a subject listing holds the subject with this identifier.
pub open spec fn lists_subject(r: Seq<SubjectData>, id: SubjectId) -> bool {
    exists|k: int| 0 <= k < r.len() && r[k].id == id
}

/// Lexicographic order of names by character.
pub open spec fn name_lt(a: Seq<char>, b: Seq<char>) -> bool
    decreases a.len(),
{
    if a.len() == 0 {
        b.len() > 0
    } else if b.len() == 0 {
        false
    } else if a[0] != b[0] {
        (a[0] as u32) < (b[0] as u32)
    } else {
        name_lt(a.drop_first(), b.drop_first())
    }
}

/// Whether a subject comes before another in the subject listing: by name,
/// then by identifier.
pub open spec fn subject_before(a: SubjectView, b: SubjectView) -> bool {
    name_lt(a.name, b.name) || (a.name == b.name && a.id.0 < b.id.0)
}

proof fn lemma_name_lt_asym(a: Seq<char>, b: Seq<char>)
    ensures
        name_lt(a, b) ==> !name_lt(b, a),
        !name_lt(a, a),
    decreases a.len(),
{
    if a.len() > 0 && b.len() > 0 {
        lemma_name_lt_asym(a.drop_first(), b.drop_first());
    }
    if a.len() > 0 {
        lemma_name_lt_asym(a.drop_first(), a.drop_first());
    }
}

/// The notes associated with a subject, in the order of their associations.
pub open spec fn subject_notes(links: Seq<(NoteId, SubjectId)>, id: SubjectId) -> Seq<NoteId>
    decreases links.len(),
{
    if links.len() == 0 {
        Seq::empty()
    } else {
        let r = subject_notes(links.drop_last(), id);
        if links.last().1 == id {
            r.push(links.last().0)
        } else {
            r
        }
    }
}

/// Whether notes can be associated again with a subject: distinct, each
/// stored, none associated with it yet.
pub open spec fn restorable(v: StoreView, id: SubjectId, notes: Seq<NoteId>) -> bool {
    &&& distinct(notes)
    &&& forall|k: int| 0 <= k < notes.len() ==> has_note(v, #[trigger] notes[k])
    &&& forall|k: int| 0 <= k < notes.len() ==> !v.links.contains((#[trigger] notes[k], id))
}

/// The store with a subject row added back, and its associations with
/// these notes, with their search rows.
pub open spec fn restored(
    v: StoreView,
    id: SubjectId,
    name: Seq<char>,
    parent: Option<SubjectId>,
    notes: Seq<NoteId>,
) -> StoreView {
    let ls = notes.map_values(|n: NoteId| (n, id));
    StoreView {
        subjects: v.subjects.push(SubjectRowView { id, name, parent_id: parent }),
        links: v.links + ls,
        rows: v.rows + ls.map_values(|l: (NoteId, SubjectId)| mirror(v.notes, l)),
        ..v
    }
}

impl View for Store {
    type V = StoreView;

    closed spec fn view(&self) -> StoreView {
        StoreView {
            notes: self.notes@.map_values(|r: NoteRow| r@),
            subjects: self.subjects@.map_values(|r: SubjectRow| r@),
            links: self.links@,
            rows: self.rows@,
            terms: Map::new(|t: Seq<char>| true, |t: Seq<char>| self.terms.count(t)),
            next_rowid: self.next_rowid,
        }
    }
}

impl Store {
    /// The invariant of the store.
    pub closed spec fn wf(&self) -> bool {
        &&& tables_wf(self@)
        &&& self.terms.wf()
    }

    /// The tables of a well-formed store keep their invariant.
    pub proof fn lemma_wf(&self)
        requires
            self.wf(),
        ensures
            tables_wf(self@),
            forall|t: Seq<char>| #[trigger] self@.terms.dom().contains(t),
    {
    }

    /// The number of notes that hold a term.
    pub open spec fn doc_count(&self, t: Seq<char>) -> u64 {
        self@.terms[t]
    }

    /// An empty store. Where it is kept is for the application to load and save.
    pub fn new(dir: ConnectionType) -> (r: Store)
        ensures
            r.wf(),
            r@.notes.len() == 0,
            r@.subjects.len() == 0,
            r@.links.len() == 0,
            r@.rows.len() == 0,
            forall|t: Seq<char>| r@.terms.dom().contains(t) && r@.terms[t] == 0,
    {
        let r = Store {
            notes: Vec::new(),
            subjects: Vec::new(),
            links: Vec::new(),
            rows: Vec::new(),
            terms: TermIndex::new(),
            next_rowid: 1,
        };
        r
    }

    proof fn lemma_note_pos(&self, i: int)
        requires
            self.wf(),
            0 <= i < self@.notes.len(),
        ensures
            note_pos(self@.notes, self@.notes[i].id) == i,
            has_note(self@, self@.notes[i].id),
    {
        let v = self@;
        let j = note_pos(v.notes, v.notes[i].id);
        if j != i {
            if j < i {
                assert(v.notes[j].id != v.notes[i].id);
            } else {
                assert(v.notes[i].id != v.notes[j].id);
            }
        }
    }

    /// Where the note with this identifier stands, if it is stored.
    fn find_note(&self, id: NoteId) -> (r: Option<usize>)
        requires
            self.wf(),
        ensures
            match r {
                Some(i) => i < self@.notes.len() && self@.notes[i as int].id == id && note_pos(
                    self@.notes,
                    id,
                ) == i,
                None => !has_note(self@, id),
            },
    {
        let mut i: usize = 0;
        while i < self.notes.len()
            invariant
                self.wf(),
                i <= self@.notes.len(),
                forall|k: int| 0 <= k < i ==> self@.notes[k].id != id,
            decreases self@.notes.len() - i,
        {
            if self.notes[i].id == id {
                proof {
                    self.lemma_note_pos(i as int);
                }
                return Some(i);
            }
            i = i + 1;
        }
        None
    }

    /// Whether these subjects are distinct.
    fn distinct_subjects(s: &Vec<SubjectId>) -> (r: bool)
        ensures
            r == distinct(s@),
    {
        let mut i: usize = 0;
        while i < s.len()
            invariant
                i <= s@.len(),
                forall|a: int, b: int| 0 <= a < b < s@.len() && a < i ==> s@[a] != s@[b],
            decreases s@.len() - i,
        {
            let mut j: usize = i + 1;
            while j < s.len()
                invariant
                    i < j <= s@.len(),
                    forall|a: int, b: int| 0 <= a < b < s@.len() && a < i ==> s@[a] != s@[b],
                    forall|b: int| i < b < j ==> s@[i as int] != s@[b],
                decreases s@.len() - j,
            {
                if s[i] == s[j] {
                    return false;
                }
                j = j + 1;
            }
            i = i + 1;
        }
        true
    }

    /// Inserts a note under the next row number, with its associations and
    /// term counts; the note handed back carries its row number.
    pub fn add_note_with_tx(&mut self, note: NoteData) -> (r: Result<NoteData, StoreError>)
        requires
            old(self).wf(),
        ensures
            final(self).wf(),
            can_insert(old(self)@, note@) ==> r is Ok && final(self)@ == inserted(old(self)@, note@)
                && r->Ok_0@ == (NoteView { rowid: old(self)@.next_rowid, ..note@ }),
            !can_insert(old(self)@, note@) ==> r == Err::<NoteData, StoreError>(
                StoreError::StorageFailure,
            ) && final(self)@ == old(self)@,
    {
        let ghost v = self@;
        match self.find_note(note.id) {
            Some(_) => {
                return Err(StoreError::StorageFailure);
            },
            None => {},
        }
        if !Self::distinct_subjects(&note.subjects) || self.next_rowid == i64::MAX {
            return Err(StoreError::StorageFailure);
        }
        let rowid = self.next_rowid;
        let id = note.id;
        let ghost nv = note@;
        let row = NoteRow {
            rowid,
            id,
            text: note.text.clone(),
            task_state: note.task_state,
            created_at: note.created_at,
            modified_at: note.modified_at,
            done_at: note.done_at,
        };
        self.notes.push(row);
        self.next_rowid = rowid + 1;
        assert(self@.notes =~= v.notes.push(row_of(nv, rowid)));
        proof {
            assert forall|i: int, j: int| 0 <= i < j < self@.notes.len() implies self@.notes[i].id
                != self@.notes[j].id && self@.notes[i].rowid < self@.notes[j].rowid by {
                if j == v.notes.len() {
                    assert(v.notes[i].id != id);
                    assert(0 < v.notes[i].rowid < v.next_rowid);
                }
            }
            assert forall|k: int| 0 <= k < v.links.len() implies mirror(self@.notes, v.links[k]) == mirror(v.notes, v.links[k]) by {
                let p = note_pos(v.notes, v.links[k].0);
                assert(has_note(v, v.links[k].0));
                assert(self@.notes[p] == v.notes[p]);
                lemma_pos_unique(self@, p);
            }
        }
        let subs: Vec<SubjectId> = if note.subjects.len() == 0 {
            vec![SubjectId(NIL_SUBJECT)]
        } else {
            note.subjects.clone()
        };
        assert(subs@ == or_nil(nv.subjects));
        let ghost ls = links_for(id, subs@);
        let ghost base = self@;
        let mut k: usize = 0;
        while k < subs.len()
            invariant
                k <= subs@.len(),
                ls == links_for(id, subs@),
                nv == note@,
                id == note.id,
                distinct(subs@),
                self.terms.wf(),
                self.terms == old(self).terms,
                self@.notes == base.notes,
                self@.subjects == base.subjects,
                self@.next_rowid == base.next_rowid,
                self@.links == v.links + ls.take(k as int),
                self@.rows.len() == self@.links.len(),
                forall|i: int| 0 <= i < self@.links.len() ==> #[trigger] self@.rows[i] == mirror(
                    self@.notes,
                    self@.links[i],
                ),
                has_note(self@, id),
                note_pos(self@.notes, id) == v.notes.len(),
                self@.notes[v.notes.len() as int].created_at == nv.created_at,
                self@.notes[v.notes.len() as int].task_state == nv.task_state,
            decreases subs@.len() - k,
        {
            let ghost pre = self@;
            self.links.push((id, subs[k]));
            self.rows.push(
                SearchRow {
                    note_id: id,
                    subject_id: subs[k],
                    created_at: note.created_at,
                    task_state: note.task_state,
                },
            );
            assert(ls.take(k + 1) =~= ls.take(k as int).push((id, subs@[k as int])));
            proof {
                let n = self@.links.len() - 1;
                assert(self@.links[n] == (id, subs@[k as int]));
                assert forall|i: int| 0 <= i < self@.links.len() implies #[trigger] self@.rows[i] == mirror(
                    self@.notes,
                    self@.links[i],
                ) by {
                    assert(pre.notes == self@.notes);
                    if i < n {
                        assert(self@.rows[i] == pre.rows[i]);
                        assert(self@.links[i] == pre.links[i]);
                        assert(pre.rows[i] == mirror(pre.notes, pre.links[i]));
                    } else {
                        assert(i == n);
                        assert(note_pos(pre.notes, id) == v.notes.len());
                    }
                }
            }
            k = k + 1;
        }
        assert(ls.take(k as int) =~= ls);
        self.terms.insert_word_occurences(note.text.as_str());
        proof {
            let w = self@;
            assert forall|i: int, j: int| 0 <= i < j < w.links.len() implies w.links[i] != w.links[j] by {
                if j >= v.links.len() {
                    if i >= v.links.len() {
                        assert(subs@[i - v.links.len()] != subs@[j - v.links.len()]);
                    } else {
                        assert(has_note(v, v.links[i].0));
                    }
                }
            }
            assert forall|i: int| 0 <= i < w.links.len() implies has_note(w, #[trigger] w.links[i].0) by {
                if i < v.links.len() {
                    let p = choose|p: int| 0 <= p < v.notes.len() && v.notes[p].id == v.links[i].0;
                    assert(w.notes[p] == v.notes[p]);
                }
            }
            assert(w.terms =~= added_terms(v.terms, nv.text));
            assert(w.rows =~= inserted(v, nv).rows);
            assert(w.notes =~= inserted(v, nv).notes);
        }
        let mut out = note;
        out.rowid = rowid;
        Ok(out)
    }
}

/// In a table of distinct identifiers, the note at a position is the one
/// found by its identifier.
pub proof fn lemma_pos_unique(v: StoreView, i: int)
    requires
        forall|a: int, b: int| 0 <= a < b < v.notes.len() ==> v.notes[a].id != v.notes[b].id,
        0 <= i < v.notes.len(),
    ensures
        note_pos(v.notes, v.notes[i].id) == i,
        has_note(v, v.notes[i].id),
{
    let j = note_pos(v.notes, v.notes[i].id);
    if j != i {
        if j < i {
            assert(v.notes[j].id != v.notes[i].id);
        } else {
            assert(v.notes[i].id != v.notes[j].id);
        }
    }
}


/// Removing a note other than the one an association names leaves the
/// association's search row as it was.
proof fn lemma_mirror_after_remove(notes: Seq<NoteRowView>, p: int, l: (NoteId, SubjectId))
    requires
        forall|a: int, b: int| 0 <= a < b < notes.len() ==> notes[a].id != notes[b].id,
        0 <= p < notes.len(),
        exists|i: int| 0 <= i < notes.len() && notes[i].id == l.0,
        notes[p].id != l.0,
    ensures
        mirror(notes.remove(p), l) == mirror(notes, l),
        exists|i: int| 0 <= i < notes.remove(p).len() && notes.remove(p)[i].id == l.0,
{
    let w = notes.remove(p);
    let q = note_pos(notes, l.0);
    let q2 = if q < p { q } else { q - 1 };
    assert(w[q2] == notes[q]);
    assert forall|a: int, b: int| 0 <= a < b < w.len() implies w[a].id != w[b].id by {
        let a0 = if a < p { a } else { a + 1 };
        let b0 = if b < p { b } else { b + 1 };
        assert(w[a] == notes[a0]);
        assert(w[b] == notes[b0]);
    }
    let j = note_pos(w, l.0);
    if j != q2 {
        if j < q2 {
            assert(w[j].id != w[q2].id);
        } else {
            assert(w[q2].id != w[j].id);
        }
    }
}

impl Store {
    /// Removes the associations, and their search rows, of a note or of a subject.
    fn remove_links_where(&mut self, note: Option<NoteId>, subject: Option<SubjectId>)
        requires
            old(self).wf(),
        ensures
            final(self).wf(),
            final(self)@ == (StoreView {
                links: kept(old(self)@.links, |l: (NoteId, SubjectId)| link_stays(note, subject, l)),
                rows: kept(old(self)@.rows, |r: SearchRow| row_stays(note, subject, r)),
                ..old(self)@
            }),
    {
        let ghost v = self@;
        let ghost lp = |l: (NoteId, SubjectId)| link_stays(note, subject, l);
        let ghost rp = |r: SearchRow| row_stays(note, subject, r);
        let mut links: Vec<(NoteId, SubjectId)> = Vec::new();
        let mut rows: Vec<SearchRow> = Vec::new();
        let mut i: usize = 0;
        while i < self.links.len()
            invariant
                self@ == v,
                self.wf(),
                lp == (|l: (NoteId, SubjectId)| link_stays(note, subject, l)),
                rp == (|r: SearchRow| row_stays(note, subject, r)),
                i <= v.links.len(),
                links@ == kept(v.links.take(i as int), lp),
                rows@ == kept(v.rows.take(i as int), rp),
                links@.len() == rows@.len(),
                distinct(links@),
                forall|k: int| 0 <= k < links@.len() ==> v.links.take(i as int).contains(#[trigger] links@[k]),
                forall|k: int| 0 <= k < links@.len() ==> #[trigger] rows@[k] == mirror(v.notes, links@[k]),
            decreases v.links.len() - i,
        {
            let l = self.links[i];
            let r = self.rows[i];
            proof {
                assert(v.links.take(i + 1).drop_last() =~= v.links.take(i as int));
                assert(v.rows.take(i + 1).drop_last() =~= v.rows.take(i as int));
                assert(r == mirror(v.notes, l));
            }
            let stays = match note {
                Some(n) => n != l.0,
                None => true,
            } && match subject {
                Some(s) => s != l.1,
                None => true,
            };
            proof {
                assert(stays == lp(l));
                assert(stays == rp(r));
                assert(v.links.take(i + 1).last() == l);
                assert(v.rows.take(i + 1).last() == r);
                assert(kept(v.links.take(i + 1), lp) == if stays {
                    kept(v.links.take(i as int), lp).push(l)
                } else {
                    kept(v.links.take(i as int), lp)
                });
                assert(kept(v.rows.take(i + 1), rp) == if stays {
                    kept(v.rows.take(i as int), rp).push(r)
                } else {
                    kept(v.rows.take(i as int), rp)
                });
            }
            if stays {
                proof {
                    assert forall|k: int| 0 <= k < links@.len() implies links@[k] != l by {
                        let x = links@[k];
                        assert(v.links.take(i as int).contains(x));
                        let j = choose|j: int| 0 <= j < i && v.links.take(i as int)[j] == x;
                        assert(v.links[j] != v.links[i as int]);
                    }
                }
                links.push(l);
                rows.push(r);
                proof {
                    assert forall|k: int| 0 <= k < links@.len() implies v.links.take(i + 1).contains(#[trigger] links@[k]) by {
                        if k < links@.len() - 1 {
                            let x = links@[k];
                            let j = choose|j: int| 0 <= j < i && v.links.take(i as int)[j] == x;
                            assert(v.links.take(i + 1)[j] == x);
                        } else {
                            assert(v.links.take(i + 1)[i as int] == l);
                        }
                    }
                }
            } else {
                proof {
                    assert forall|k: int| 0 <= k < links@.len() implies v.links.take(i + 1).contains(#[trigger] links@[k]) by {
                        let x = links@[k];
                        let j = choose|j: int| 0 <= j < i && v.links.take(i as int)[j] == x;
                        assert(v.links.take(i + 1)[j] == x);
                    }
                }
            }
            i = i + 1;
        }
        assert(v.links.take(i as int) =~= v.links);
        assert(v.rows.take(i as int) =~= v.rows);
        self.links = links;
        self.rows = rows;
        proof {
            let w = self@;
            assert forall|k: int| 0 <= k < w.links.len() implies has_note(w, #[trigger] w.links[k].0) by {
                let j = choose|j: int| 0 <= j < v.links.len() && v.links[j] == w.links[k];
                assert(has_note(v, v.links[j].0));
            }
            assert(w =~= (StoreView { links: kept(v.links, lp), rows: kept(v.rows, rp), ..v }));
        }
    }

    /// Deletes a note: its row, its associations and search rows, and one
    /// count of each of its terms.
    fn delete_note_with_tx(&mut self, id: NoteId) -> (r: Result<(), StoreError>)
        requires
            old(self).wf(),
        ensures
            final(self).wf(),
            has_note(old(self)@, id) ==> r is Ok && final(self)@ == deleted(old(self)@, id),
            !has_note(old(self)@, id) ==> r == Err::<(), StoreError>(StoreError::NotFound)
                && final(self)@ == old(self)@,
    {
        let ghost v = self@;
        let p = match self.find_note(id) {
            Some(p) => p,
            None => {
                return Err(StoreError::NotFound);
            },
        };
        self.terms.remove_word_occurences(self.notes[p].text.as_str());
        assert(self@.terms =~= removed_terms(v.terms, v.notes[p as int].text));
        self.remove_links_where(Some(id), None);
        let ghost mid = self@;
        self.notes.remove(p);
        proof {
            let w = self@;
            assert(w.notes =~= v.notes.remove(p as int));
            lemma_pos_unique(v, p as int);
            assert forall|i: int, j: int| 0 <= i < j < w.notes.len() implies w.notes[i].id
                != w.notes[j].id && w.notes[i].rowid < w.notes[j].rowid by {
                let i0 = if i < p { i } else { i + 1 };
                let j0 = if j < p { j } else { j + 1 };
                assert(w.notes[i] == v.notes[i0]);
                assert(w.notes[j] == v.notes[j0]);
            }
            assert forall|i: int| 0 <= i < w.notes.len() implies 0 < #[trigger] w.notes[i].rowid < w.next_rowid by {
                let i0 = if i < p { i } else { i + 1 };
                assert(w.notes[i] == v.notes[i0]);
            }
            assert forall|k: int| 0 <= k < w.links.len() implies has_note(w, #[trigger] w.links[k].0)
                && w.rows[k] == mirror(w.notes, w.links[k]) by {
                let l = w.links[k];
                assert(mid.rows[k] == mirror(mid.notes, l));
                lemma_kept_contains(v.links, |l: (NoteId, SubjectId)| link_stays(Some(id), None, l), l);
                assert(mid.links.contains(l));
                assert(has_note(mid, l.0));
                assert(v.notes[p as int].id != l.0);
                lemma_mirror_after_remove(v.notes, p as int, l);
            }
            assert(w =~= deleted(v, id));
        }
        Ok(())
    }

    /// Deletes a note, or fails with `NotFound` when no note has the identifier.
    pub fn delete_note(&mut self, note: NoteId) -> (r: Result<(), StoreError>)
        requires
            old(self).wf(),
        ensures
            final(self).wf(),
            has_note(old(self)@, note) ==> r is Ok && final(self)@ == deleted(old(self)@, note),
            !has_note(old(self)@, note) ==> r == Err::<(), StoreError>(StoreError::NotFound)
                && final(self)@ == old(self)@,
    {
        self.delete_note_with_tx(note)
    }
}


/// Inserts an identifier into an ascending sequence, unless it is there.
fn sorted_insert(v: &mut Vec<SubjectId>, x: SubjectId)
    requires
        ascending(old(v)@),
    ensures
        ascending(final(v)@),
        forall|s: SubjectId| #[trigger] final(v)@.contains(s) <==> (old(v)@.contains(s) || s == x),
{
    let mut k: usize = 0;
    while k < v.len() && v[k].0 < x.0
        invariant
            k <= v@.len(),
            forall|i: int| 0 <= i < k ==> v@[i].0 < x.0,
        decreases v@.len() - k,
    {
        k = k + 1;
    }
    if k < v.len() && v[k].0 == x.0 {
        return;
    }
    let ghost before = v@;
    v.insert(k, x);
    assert forall|s: SubjectId| #[trigger] v@.contains(s) <==> (before.contains(s) || s == x) by {
        if v@.contains(s) {
            let i = choose|i: int| 0 <= i < v@.len() && v@[i] == s;
            if i < k {
                assert(before[i] == s);
            } else if i > k {
                assert(before[i - 1] == s);
            }
        }
        if before.contains(s) {
            let i = choose|i: int| 0 <= i < before.len() && before[i] == s;
            if i < k {
                assert(v@[i] == s);
            } else {
                assert(v@[i + 1] == s);
            }
        }
        if s == x {
            assert(v@[k as int] == s);
        }
    }
}

impl Store {
    /// Adds a note made by a builder, with a fresh identifier and the current
    /// time for what the builder leaves unset.
    pub fn add_note(&mut self, note: NoteBuilder) -> (r: Result<NoteData, StoreError>)
        requires
            old(self).wf(),
        ensures
            final(self).wf(),
            exists|n: NoteView|
                {
                    &&& exists|id: NoteId, t: Timestamp| n == crate::model::built(note@, id, t)
                    &&& note@.id is None ==> n.id.0 != NIL_SUBJECT
                    &&& note@.created_at is None && note@.modified_at is None ==> n.created_at
                        == n.modified_at
                    &&& can_insert(old(self)@, n) ==> r is Ok && final(self)@ == inserted(
                        old(self)@,
                        n,
                    ) && r->Ok_0@ == (NoteView { rowid: old(self)@.next_rowid, ..n })
                    &&& !can_insert(old(self)@, n) ==> r == Err::<NoteData, StoreError>(
                        StoreError::StorageFailure,
                    ) && final(self)@ == old(self)@
                },
    {
        let n = note.build();
        let r = self.add_note_with_tx(n);
        assert(exists|id: NoteId, t: Timestamp| n@ == crate::model::built(note@, id, t));
        r
    }

    /// Replaces a stored note by deleting it and inserting the given one
    /// under a new row number, all at once or not at all.
    pub fn update_note(&mut self, note: NoteData) -> (r: Result<(), StoreError>)
        requires
            old(self).wf(),
        ensures
            final(self).wf(),
            !has_note(old(self)@, note.id) ==> r == Err::<(), StoreError>(StoreError::NotFound)
                && final(self)@ == old(self)@,
            has_note(old(self)@, note.id) && !(distinct(note@.subjects) && old(self)@.next_rowid
                < i64::MAX) ==> r == Err::<(), StoreError>(StoreError::StorageFailure)
                && final(self)@ == old(self)@,
            has_note(old(self)@, note.id) && distinct(note@.subjects) && old(self)@.next_rowid
                < i64::MAX ==> r is Ok && final(self)@ == inserted(
                deleted(old(self)@, note.id),
                note@,
            ),
            r is Ok ==> tables_wf(deleted(old(self)@, note.id)) && can_insert(
                deleted(old(self)@, note.id),
                note@,
            ),
    {
        let ghost v = self@;
        match self.find_note(note.id) {
            Some(_) => {},
            None => {
                return Err(StoreError::NotFound);
            },
        }
        if !Self::distinct_subjects(&note.subjects) || self.next_rowid == i64::MAX {
            return Err(StoreError::StorageFailure);
        }
        let r = self.delete_note_with_tx(note.id);
        proof {
            let w = self@;
            let p = note_pos(v.notes, note.id);
            if has_note(w, note.id) {
                let i = choose|i: int| 0 <= i < w.notes.len() && w.notes[i].id == note.id;
                let i0 = if i < p { i } else { i + 1 };
                assert(w.notes[i] == v.notes[i0]);
                lemma_pos_unique(v, i0);
            }
        }
        assert(tables_wf(self@));
        match self.add_note_with_tx(note) {
            Ok(_) => Ok(()),
            Err(e) => Err(e),
        }
    }

    /// The note with this identifier, or `NotFound`.
    pub fn get_note(&self, note: NoteId) -> (r: Result<NoteData, StoreError>)
        requires
            self.wf(),
        ensures
            has_note(self@, note) ==> r is Ok && note_data(self@, note, r->Ok_0@),
            !has_note(self@, note) ==> r == Err::<NoteData, StoreError>(StoreError::NotFound),
    {
        let p = match self.find_note(note) {
            Some(p) => p,
            None => {
                return Err(StoreError::NotFound);
            },
        };
        let mut subs: Vec<SubjectId> = Vec::new();
        let mut i: usize = 0;
        while i < self.links.len()
            invariant
                self.wf(),
                i <= self@.links.len(),
                ascending(subs@),
                forall|s: SubjectId|
                    #[trigger] subs@.contains(s) <==> (s.0 != NIL_SUBJECT && self@.links.take(
                        i as int,
                    ).contains((note, s))),
            decreases self@.links.len() - i,
        {
            let l = self.links[i];
            let ghost pre = subs@;
            if l.0 == note && l.1.0 != NIL_SUBJECT {
                sorted_insert(&mut subs, l.1);
            }
            assert forall|s: SubjectId|
                #[trigger] subs@.contains(s) <==> (s.0 != NIL_SUBJECT && self@.links.take(
                    i + 1,
                ).contains((note, s))) by {
                let t0 = self@.links.take(i as int);
                let t1 = self@.links.take(i + 1);
                assert(t1 =~= t0.push(l));
                assert(pre.contains(s) <==> (s.0 != NIL_SUBJECT && t0.contains((note, s))));
                if l.0 == note && l.1.0 != NIL_SUBJECT {
                    assert(subs@.contains(s) <==> (pre.contains(s) || s == l.1));
                } else {
                    assert(subs@ == pre);
                }
                if t0.contains((note, s)) {
                    let j = choose|j: int| 0 <= j < t0.len() && t0[j] == (note, s);
                    assert(t1[j] == (note, s));
                }
                if l == (note, s) {
                    assert(t1[i as int] == (note, s));
                }
                if t1.contains((note, s)) {
                    let j = choose|j: int| 0 <= j < t1.len() && t1[j] == (note, s);
                    if j < i {
                        assert(t0[j] == (note, s));
                    }
                }
            }
            i = i + 1;
        }
        assert(self@.links.take(i as int) =~= self@.links);
        let row = &self.notes[p];
        Ok(
            NoteData {
                rowid: row.rowid,
                id: row.id,
                text: row.text.clone(),
                subjects: subs,
                task_state: row.task_state,
                created_at: row.created_at,
                modified_at: row.modified_at,
                done_at: row.done_at,
            },
        )
    }
}


impl Store {
    /// Whether the association table holds this pair.
    fn has_link(&self, l: (NoteId, SubjectId)) -> (r: bool)
        ensures
            r == self@.links.contains(l),
    {
        let mut i: usize = 0;
        while i < self.links.len()
            invariant
                i <= self@.links.len(),
                forall|k: int| 0 <= k < i ==> self@.links[k] != l,
            decreases self@.links.len() - i,
        {
            if self.links[i].0 == l.0 && self.links[i].1 == l.1 {
                assert(self@.links[i as int] == l);
                return true;
            }
            i = i + 1;
        }
        false
    }

    /// Whether the note at position `i` is one that the search looks for.
    fn matches(&self, q: NoteSearch, i: usize) -> (r: bool)
        requires
            i < self@.notes.len(),
        ensures
            r == note_matches(self@, q, i as int),
    {
        let row = &self.notes[i];
        let under = match q.subject_id {
            Some(s) => self.has_link((row.id, s)),
            None => true,
        };
        under && (!q.task_only || row.task_state != TaskState::NotATask)
    }

    /// Whether the note at position `i` comes before the one at `j`.
    fn before(&self, tasks_first: bool, i: usize, j: usize) -> (r: bool)
        requires
            i < self@.notes.len(),
            j < self@.notes.len(),
        ensures
            r == ranks_before(self@.notes, tasks_first, i as int, j as int),
    {
        let a = &self.notes[i];
        let b = &self.notes[j];
        let ra = a.task_state.to_db_value();
        let rb = b.task_state.to_db_value();
        if tasks_first && ra != rb {
            ra < rb
        } else if a.created_at != b.created_at {
            a.created_at > b.created_at
        } else {
            i > j
        }
    }

    /// The positions of the first `limit` notes that a search looks for, in order.
    fn ranked(&self, q: NoteSearch, limit: usize) -> (r: Vec<usize>)
        requires
            self.wf(),
        ensures
            is_ranking(self@, q, r@, limit as int),
    {
        let n = self.notes.len();
        let t = q.task_only;
        let mut flags: Vec<bool> = Vec::new();
        let mut i: usize = 0;
        while i < n
            invariant
                n == self@.notes.len(),
                i <= n,
                flags@.len() == i,
                forall|k: int| 0 <= k < i ==> flags@[k] == note_matches(self@, q, k),
            decreases n - i,
        {
            let m = self.matches(q, i);
            flags.push(m);
            i = i + 1;
        }
        let mut picked: Vec<usize> = Vec::new();
        while picked.len() < limit
            invariant
                n == self@.notes.len(),
                t == q.task_only,
                flags@.len() == n,
                forall|k: int| 0 <= k < n ==> flags@[k] == note_matches(self@, q, k),
                picked@.len() <= limit,
                forall|k: int| 0 <= k < picked@.len() ==> picked@[k] < n && flags@[#[trigger] picked@[k] as int],
                forall|k: int, l: int|
                    0 <= k < l < picked@.len() ==> ranks_before(self@.notes, t, #[trigger] picked@[k] as int, #[trigger] picked@[l] as int),
                forall|j: int|
                    0 <= j < n && flags@[j] && !picked@.contains(j as usize) ==> picked@.len() == 0
                        || ranks_before(self@.notes, t, picked@.last() as int, j),
            ensures
                picked@.len() < limit ==> forall|k: int|
                    0 <= k < n ==> !(flags@[k] && (picked@.len() == 0 || ranks_before(self@.notes, t, picked@.last() as int, k))),
            decreases limit - picked@.len(),
        {
            let mut best: usize = n;
            let mut j: usize = 0;
            while j < n
                invariant
                    n == self@.notes.len(),
                    flags@.len() == n,
                    j <= n,
                    forall|k: int| 0 <= k < picked@.len() ==> picked@[k] < n,
                    best == n || (best < j && flags@[best as int] && (picked@.len() == 0 || ranks_before(self@.notes, t, picked@.last() as int, best as int))),
                    best < n ==> forall|k: int|
                        0 <= k < j && flags@[k] && (picked@.len() == 0 || ranks_before(self@.notes, t, picked@.last() as int, k))
                            ==> k == best || ranks_before(self@.notes, t, best as int, k),
                    best == n ==> forall|k: int|
                        0 <= k < j ==> !(flags@[k] && (picked@.len() == 0 || ranks_before(self@.notes, t, picked@.last() as int, k))),
                decreases n - j,
            {
                let after = picked.len() == 0 || self.before(t, picked[picked.len() - 1], j);
                if flags[j] && after && (best == n || self.before(t, j, best)) {
                    best = j;
                }
                j = j + 1;
            }
            if best == n {
                break;
            }
            let ghost old_picked = picked@;
            picked.push(best);
            assert(picked@[old_picked.len() as int] == best);
            proof {
                assert forall|k: int, l: int|
                    0 <= k < l < picked@.len() implies ranks_before(self@.notes, t, #[trigger] picked@[k] as int, #[trigger] picked@[l] as int) by {
                    if l == picked@.len() - 1 && k < l - 1 {
                        assert(ranks_before(self@.notes, t, old_picked[k] as int, old_picked.last() as int));
                    }
                }
                assert forall|j: int|
                    0 <= j < n && flags@[j] && !picked@.contains(j as usize) implies picked@.len() == 0
                        || ranks_before(self@.notes, t, picked@.last() as int, j) by {
                    if !old_picked.contains(j as usize) {
                    } else {
                        let k = choose|k: int| 0 <= k < old_picked.len() && old_picked[k] == j as usize;
                        assert(picked@[k] == j as usize);
                    }
                    assert(j != best);
                }
            }
        }
        proof {
            assert forall|j: int| 0 <= j < n && note_matches(self@, q, j) implies picked@.contains(j as usize) || (picked@.len()
                    == limit && (picked@.len() == 0 || ranks_before(self@.notes, q.task_only, picked@.last() as int, j))) by {
                assert(flags@[j]);
            }
        }
        picked
    }

    /// The identifiers of the notes that a search looks for, newest first
    /// (tasks: to-do before done, then newest first), at most `PAGE_SIZE`.
    pub fn find_notes(&self, query: NoteSearch) -> (r: Result<Vec<NoteId>, StoreError>)
        requires
            self.wf(),
        ensures
            r is Ok,
            is_listing(self@, query, r->Ok_0@, PAGE_SIZE as int),
            distinct(r->Ok_0@),
    {
        let p = self.ranked(query, PAGE_SIZE);
        let ids = self.ids_at(&p, query, PAGE_SIZE);
        Ok(ids)
    }

    /// The identifiers of the notes at these positions.
    fn ids_at(&self, p: &Vec<usize>, q: NoteSearch, limit: usize) -> (r: Vec<NoteId>)
        requires
            self.wf(),
            is_ranking(self@, q, p@, limit as int),
        ensures
            is_listing(self@, q, r@, limit as int),
            distinct(r@),
            r@.len() == p@.len(),
            forall|k: int| 0 <= k < r@.len() ==> #[trigger] note_pos(self@.notes, r@[k]) == p@[k],
    {
        let n = self.notes.len();
        let mut r: Vec<NoteId> = Vec::new();
        let mut k: usize = 0;
        while k < p.len()
            invariant
                self.wf(),
                is_ranking(self@, q, p@, limit as int),
                k <= p@.len(),
                r@.len() == k,
                forall|m: int| 0 <= m < k ==> #[trigger] r@[m] == self@.notes[p@[m] as int].id,
                forall|m: int| 0 <= m < k ==> #[trigger] note_pos(self@.notes, r@[m]) == p@[m],
            decreases p@.len() - k,
        {
            let id = self.notes[p[k]].id;
            proof {
                self.lemma_note_pos(p@[k as int] as int);
            }
            r.push(id);
            k = k + 1;
        }
        proof {
            let v = self@;
            assert(v.notes.len() == n);
            assert forall|m: int| 0 <= m < r@.len() implies has_note(v, #[trigger] r@[m]) by {
                self.lemma_note_pos(p@[m] as int);
            }
            assert forall|a: int, b: int| 0 <= a < b < r@.len() implies r@[a] != r@[b] by {
                assert(ranks_before(v.notes, q.task_only, p@[a] as int, p@[b] as int));
            }
            assert forall|i: int|
                0 <= i < v.notes.len() && note_matches(v, q, i) implies r@.contains(v.notes[i].id) || (r@.len()
                    == limit && (r@.len() == 0 || ranks_before(v.notes, q.task_only, note_pos(v.notes, r@.last()), i))) by {
                if p@.contains(i as usize) {
                    let m = choose|m: int| 0 <= m < p@.len() && p@[m] == i as usize;
                    assert(r@[m] == self@.notes[p@[m] as int].id);
                    assert(p@[m] as int == i);
                    assert(r@[m] == v.notes[i].id);
                } else if r@.len() > 0 {
                    assert(note_pos(v.notes, r@[r@.len() - 1]) == p@[p@.len() - 1]);
                }
            }
            assert forall|a: int, b: int|
                0 <= a < b < r@.len() implies ranks_before(
                    v.notes,
                    q.task_only,
                    note_pos(v.notes, #[trigger] r@[a]),
                    note_pos(v.notes, #[trigger] r@[b]),
                ) by {
                assert(ranks_before(v.notes, q.task_only, p@[a] as int, p@[b] as int));
            }
        }
        r
    }
}


impl Store {
    /// The notes with these identifiers, in the same order, or `NotFound`
    /// when one of them is not stored.
    pub fn get_notes(&self, notes: &[NoteId]) -> (r: Result<Vec<NoteData>, StoreError>)
        requires
            self.wf(),
        ensures
            (forall|k: int| 0 <= k < notes@.len() ==> has_note(self@, #[trigger] notes@[k])) ==> r is Ok
                && r->Ok_0@.len() == notes@.len() && forall|k: int|
                0 <= k < notes@.len() ==> note_data(self@, notes@[k], #[trigger] r->Ok_0@[k]@),
            !(forall|k: int| 0 <= k < notes@.len() ==> has_note(self@, #[trigger] notes@[k])) ==> r
                == Err::<Vec<NoteData>, StoreError>(StoreError::NotFound),
    {
        let mut out: Vec<NoteData> = Vec::new();
        let mut k: usize = 0;
        while k < notes.len()
            invariant
                self.wf(),
                k <= notes@.len(),
                out@.len() == k,
                forall|m: int| 0 <= m < k ==> has_note(self@, #[trigger] notes@[m]),
                forall|m: int| 0 <= m < k ==> note_data(self@, notes@[m], #[trigger] out@[m]@),
            decreases notes@.len() - k,
        {
            match self.get_note(notes[k]) {
                Ok(n) => {
                    out.push(n);
                },
                Err(e) => {
                    return Err(e);
                },
            }
            k = k + 1;
        }
        Ok(out)
    }

    /// Every note, newest first.
    pub fn get_all_notes(&self) -> (r: Result<Vec<NoteData>, StoreError>)
        requires
            self.wf(),
        ensures
            r is Ok,
            is_listing(
                self@,
                NoteSearch { subject_id: None, task_only: false },
                Seq::new(r->Ok_0@.len(), |k: int| r->Ok_0@[k].id),
                self@.notes.len() as int,
            ),
            forall|k: int| 0 <= k < r->Ok_0@.len() ==> note_data(self@, #[trigger] r->Ok_0@[k]@.id, r->Ok_0@[k]@),
    {
        let q = NoteSearch { subject_id: None, task_only: false };
        let p = self.ranked(q, self.notes.len());
        let ids = self.ids_at(&p, q, self.notes.len());
        match self.get_notes(ids.as_slice()) {
            Ok(out) => {
                assert forall|k: int| 0 <= k < out@.len() implies out@[k].id == ids@[k] by {
                    assert(note_data(self@, ids@[k], out@[k]@));
                }
                assert(Seq::new(out@.len(), |k: int| out@[k].id) =~= ids@);
                Ok(out)
            },
            Err(e) => Err(e),
        }
    }

    /// The number of search rows under a subject: the notes associated with it.
    pub fn subject_note_count(&self, subject: SubjectId) -> (r: Result<u64, StoreError>)
        requires
            self.wf(),
        ensures
            r is Ok,
            r->Ok_0 == kept(self@.rows, |x: SearchRow| x.subject_id == subject).len(),
    {
        let ghost f = |x: SearchRow| x.subject_id == subject;
        let mut c: u64 = 0;
        let mut i: usize = 0;
        while i < self.rows.len()
            invariant
                f == (|x: SearchRow| x.subject_id == subject),
                i <= self@.rows.len(),
                c == kept(self@.rows.take(i as int), f).len(),
                c <= i,
            decreases self@.rows.len() - i,
        {
            assert(self@.rows.take(i + 1).drop_last() =~= self@.rows.take(i as int));
            if self.rows[i].subject_id == subject {
                c = c + 1;
            }
            i = i + 1;
        }
        assert(self@.rows.take(i as int) =~= self@.rows);
        Ok(c)
    }

    /// The notes stored under these row numbers, in the same order; row
    /// numbers of no stored note are passed over.
    pub fn notes_by_rowids(&self, rowids: &Vec<i64>) -> (r: Vec<NoteData>)
        requires
            self.wf(),
        ensures
            r@.len() == kept(rowids@, |x: i64| has_rowid(self@, x)).len(),
            forall|k: int|
                #![trigger r@[k]]
                0 <= k < r@.len() ==> r@[k]@.rowid == kept(rowids@, |x: i64| has_rowid(self@, x))[k]
                    && has_note(self@, r@[k]@.id) && note_data(self@, r@[k]@.id, r@[k]@),
    {
        let ghost f = |x: i64| has_rowid(self@, x);
        let mut out: Vec<NoteData> = Vec::new();
        let mut i: usize = 0;
        while i < rowids.len()
            invariant
                self.wf(),
                f == (|x: i64| has_rowid(self@, x)),
                i <= rowids@.len(),
                out@.len() == kept(rowids@.take(i as int), f).len(),
                forall|k: int|
                    #![trigger out@[k]]
                    0 <= k < out@.len() ==> out@[k]@.rowid == kept(rowids@.take(i as int), f)[k]
                        && has_note(self@, out@[k]@.id) && note_data(self@, out@[k]@.id, out@[k]@),
            decreases rowids@.len() - i,
        {
            let x = rowids[i];
            assert(rowids@.take(i + 1).drop_last() =~= rowids@.take(i as int));
            let mut j: usize = 0;
            while j < self.notes.len() && self.notes[j].rowid != x
                invariant
                    j <= self@.notes.len(),
                    forall|m: int| 0 <= m < j ==> self@.notes[m].rowid != x,
                decreases self@.notes.len() - j,
            {
                j = j + 1;
            }
            if j < self.notes.len() {
                proof {
                    self.lemma_note_pos(j as int);
                }
                match self.get_note(self.notes[j].id) {
                    Ok(n) => {
                        out.push(n);
                    },
                    Err(_) => {},
                }
            }
            i = i + 1;
        }
        assert(rowids@.take(i as int) =~= rowids@);
        assert(kept(rowids@, f) == kept(rowids@, |x: i64| has_rowid(self@, x)));
        assert forall|k: int| #![trigger out@[k]] 0 <= k < out@.len() implies out@[k]@.rowid == kept(
            rowids@,
            |x: i64| has_rowid(self@, x),
        )[k] && has_note(self@, out@[k]@.id) && note_data(self@, out@[k]@.id, out@[k]@) by {
            assert(out@[k]@.rowid == kept(rowids@.take(i as int), f)[k]);
        }
        out
    }

    /// Rebuilds the term counts from the text of every stored note.
    pub fn fill_word_occurence_table(&mut self)
        requires
            old(self).wf(),
        ensures
            final(self).wf(),
            final(self)@ == (StoreView { terms: terms_from(old(self)@.notes), ..old(self)@ }),
    {
        let ghost v = self@;
        self.terms.clear();
        let mut i: usize = 0;
        while i < self.notes.len()
            invariant
                self.terms.wf(),
                tables_wf(v),
                i <= v.notes.len(),
                self.notes@.map_values(|r: NoteRow| r@) == v.notes,
                self.subjects@.map_values(|r: SubjectRow| r@) == v.subjects,
                self.links@ == v.links,
                self.rows@ == v.rows,
                self.next_rowid == v.next_rowid,
                Map::new(|t: Seq<char>| true, |t: Seq<char>| self.terms.count(t)) == terms_from(
                    v.notes.take(i as int),
                ),
            decreases v.notes.len() - i,
        {
            let ghost before = Map::new(|t: Seq<char>| true, |t: Seq<char>| self.terms.count(t));
            self.terms.insert_word_occurences(self.notes[i].text.as_str());
            proof {
                assert(v.notes.take(i + 1).drop_last() =~= v.notes.take(i as int));
                assert(self.notes@[i as int]@ == v.notes[i as int]);
                assert(Map::new(|t: Seq<char>| true, |t: Seq<char>| self.terms.count(t)) =~= added_terms(
                    before,
                    v.notes[i as int].text,
                ));
            }
            i = i + 1;
        }
        assert(v.notes.take(i as int) =~= v.notes);
        assert(self@ =~= (StoreView { terms: terms_from(v.notes), ..v }));
    }

    /// Rebuilds the term counts from the notes when no term has a positive
    /// count, as after loading notes into a fresh store; otherwise leaves
    /// the store as it is. The search rows need no rebuild: every change of
    /// the associations keeps them in step.
    pub fn setup_tables(&mut self)
        requires
            old(self).wf(),
        ensures
            final(self).wf(),
            (forall|t: Seq<char>| old(self)@.terms[t] == 0) ==> final(self)@ == (StoreView {
                terms: terms_from(old(self)@.notes),
                ..old(self)@
            }),
            !(forall|t: Seq<char>| old(self)@.terms[t] == 0) ==> final(self)@ == old(self)@,
    {
        assert forall|t: Seq<char>| #![trigger self@.terms[t]] #![trigger self.terms.count(t)] self@.terms[t] == self.terms.count(t) by {}
        if self.terms.is_empty() {
            self.fill_word_occurence_table();
        }
    }

    /// Inserts a note as it is, with its identifier and times, under the next row number.
    pub fn import_note(&mut self, note: &NoteData) -> (r: Result<(), StoreError>)
        requires
            old(self).wf(),
        ensures
            final(self).wf(),
            can_insert(old(self)@, note@) ==> r is Ok && final(self)@ == inserted(old(self)@, note@),
            !can_insert(old(self)@, note@) ==> r == Err::<(), StoreError>(StoreError::StorageFailure)
                && final(self)@ == old(self)@,
    {
        match self.add_note_with_tx(note.duplicate()) {
            Ok(_) => Ok(()),
            Err(e) => Err(e),
        }
    }

    /// The counts that rank the terms of a draft text against the stored notes.
    pub fn term_stats(&self, text: &str) -> (r: TermStats)
        requires
            self.wf(),
        ensures
            r.total_notes == self@.notes.len(),
            exists|all: Seq<(Vec<char>, usize)>|
                counts_match(all, terms_of(normal_text(text@))) && all.len() == r.distinct_terms,
            forall|a: int, b: int|
                0 <= a < b < r.candidates@.len() ==> r.candidates@[a].term@ != r.candidates@[b].term@,
            forall|k: int|
                0 <= k < r.candidates@.len() ==> {
                    let c = #[trigger] r.candidates@[k];
                    &&& c.in_text > 0
                    &&& terms_of(normal_text(text@)).count(c.term@) == c.in_text
                    &&& c.in_notes == self.doc_count(c.term@)
                    &&& c.in_notes > 0
                },
            forall|t: Seq<char>|
                terms_of(normal_text(text@)).count(t) > 0 && self.doc_count(t) > 0 ==> exists|k: int|
                    0 <= k < r.candidates@.len() && #[trigger] r.candidates@[k].term@ == t,
    {
        let chars = crate::text::chars_of(text);
        let all = crate::text::text_terms(chars.as_slice());
        let ghost bag = terms_of(normal_text(text@));
        let mut out: Vec<TermCandidate> = Vec::new();
        let mut i: usize = 0;
        while i < all.len()
            invariant
                self.wf(),
                i <= all@.len(),
                counts_match(all@, bag),
                bag == terms_of(normal_text(text@)),
                forall|a: int, b: int|
                    0 <= a < b < out@.len() ==> out@[a].term@ != out@[b].term@,
                forall|k: int|
                    0 <= k < out@.len() ==> {
                        let c = #[trigger] out@[k];
                        &&& c.in_text > 0
                        &&& bag.count(c.term@) == c.in_text
                        &&& c.in_notes == self.doc_count(c.term@)
                        &&& c.in_notes > 0
                        &&& exists|m: int| 0 <= m < i && all@[m].0@ == c.term@
                    },
                forall|m: int|
                    #![trigger all@[m]]
                    0 <= m < i && self.doc_count(all@[m].0@) > 0 ==> exists|k: int|
                        0 <= k < out@.len() && #[trigger] out@[k].term@ == all@[m].0@,
            decreases all@.len() - i,
        {
            let ghost old_out = out@;
            let d = self.terms.lookup(all[i].0.as_slice());
            assert(d == self.doc_count(all@[i as int].0@));
            if d > 0 {
                let term = crate::text::string_of(all[i].0.as_slice());
                proof {
                    assert forall|k: int| 0 <= k < out@.len() implies out@[k].term@ != term@ by {
                        let c = out@[k];
                        let m = choose|m: int| 0 <= m < i && all@[m].0@ == c.term@;
                        assert(all@[m].0@ != all@[i as int].0@);
                    }
                }
                out.push(TermCandidate { term, in_text: all[i].1, in_notes: d });
                proof {
                    let n = out@.len() - 1;
                    assert(out@[n].term@ == all@[i as int].0@);
                }
            }
            proof {
                assert forall|m: int|
                    #![trigger all@[m]]
                    0 <= m < i + 1 && self.doc_count(all@[m].0@) > 0 implies exists|k: int|
                        0 <= k < out@.len() && #[trigger] out@[k].term@ == all@[m].0@ by {
                    if m < i {
                        let k = choose|k: int| 0 <= k < old_out.len() && #[trigger] old_out[k].term@ == all@[m].0@;
                        assert(out@[k] == old_out[k]);
                    } else {
                        assert(out@[out@.len() - 1].term@ == all@[i as int].0@);
                    }
                }
            }
            i = i + 1;
        }
        proof {
            assert forall|t: Seq<char>|
                bag.count(t) > 0 && self.doc_count(t) > 0 implies exists|k: int|
                    0 <= k < out@.len() && #[trigger] out@[k].term@ == t by {
                assert(bag.count(t) > 0);
                let m = choose|m: int| #![trigger all@[m]] 0 <= m < all@.len() && all@[m].0@ == t;
                assert(self.doc_count(all@[m].0@) > 0);
            }
        }
        TermStats { total_notes: self.notes.len(), distinct_terms: all.len(), candidates: out }
    }
}


/// Whether name `a` comes before name `b`.
fn name_less(a: &str, b: &str) -> (r: bool)
    ensures
        r == name_lt(a@, b@),
{
    let x = crate::text::chars_of(a);
    let y = crate::text::chars_of(b);
    let mut i: usize = 0;
    assert(x@.skip(0) =~= x@);
    assert(y@.skip(0) =~= y@);
    while i < x.len() && i < y.len() && x[i] == y[i]
        invariant
            i <= x@.len(),
            i <= y@.len(),
            name_lt(x@, y@) == name_lt(x@.skip(i as int), y@.skip(i as int)),
        decreases x@.len() - i,
    {
        assert(x@.skip(i as int).drop_first() =~= x@.skip(i + 1));
        assert(y@.skip(i as int).drop_first() =~= y@.skip(i + 1));
        i = i + 1;
    }
    if i == x.len() {
        i < y.len()
    } else if i == y.len() {
        false
    } else {
        assert(x@.skip(i as int)[0] == x@[i as int]);
        assert(y@.skip(i as int)[0] == y@[i as int]);
        (x[i] as u32) < (y[i] as u32)
    }
}

impl Store {
    proof fn lemma_subject_pos(&self, i: int)
        requires
            self.wf(),
            0 <= i < self@.subjects.len(),
        ensures
            subject_pos(self@.subjects, self@.subjects[i].id) == i,
            has_subject(self@, self@.subjects[i].id),
    {
        let v = self@;
        let j = subject_pos(v.subjects, v.subjects[i].id);
        if j != i {
            if j < i {
                assert(v.subjects[j].id != v.subjects[i].id);
            } else {
                assert(v.subjects[i].id != v.subjects[j].id);
            }
        }
    }

    /// Where the subject with this identifier stands, if it is stored.
    fn find_subject(&self, id: SubjectId) -> (r: Option<usize>)
        requires
            self.wf(),
        ensures
            match r {
                Some(i) => i < self@.subjects.len() && self@.subjects[i as int].id == id
                    && subject_pos(self@.subjects, id) == i,
                None => !has_subject(self@, id),
            },
    {
        let mut i: usize = 0;
        while i < self.subjects.len()
            invariant
                self.wf(),
                i <= self@.subjects.len(),
                forall|k: int| 0 <= k < i ==> self@.subjects[k].id != id,
            decreases self@.subjects.len() - i,
        {
            if self.subjects[i].id == id {
                proof {
                    self.lemma_subject_pos(i as int);
                }
                return Some(i);
            }
            i = i + 1;
        }
        None
    }

    /// Whether a subject other than `except` has this name under this parent.
    fn taken(&self, name: &str, parent: Option<SubjectId>, except: Option<SubjectId>) -> (r: bool)
        ensures
            r == name_taken(self@, name@, parent, except),
    {
        let mut i: usize = 0;
        while i < self.subjects.len()
            invariant
                i <= self@.subjects.len(),
                forall|k: int|
                    0 <= k < i ==> !(self@.subjects[k].name == name@ && self@.subjects[k].parent_id
                        == parent && Some(self@.subjects[k].id) != except),
            decreases self@.subjects.len() - i,
        {
            let row = &self.subjects[i];
            let same_name = crate::text::same_chars(
                crate::text::chars_of(row.name.as_str()).as_slice(),
                crate::text::chars_of(name).as_slice(),
            );
            if same_name && row.parent_id == parent && Some(row.id) != except {
                assert(self@.subjects[i as int].name == name@);
                return true;
            }
            i = i + 1;
        }
        false
    }

    /// Inserts a subject row, unless its identifier is stored or its name is
    /// taken under its parent.
    fn insert_subject(&mut self, id: SubjectId, name: &str, parent: Option<SubjectId>) -> (r: Result<(), StoreError>)
        requires
            old(self).wf(),
        ensures
            final(self).wf(),
            has_subject(old(self)@, id) ==> r == Err::<(), StoreError>(StoreError::StorageFailure)
                && final(self)@ == old(self)@,
            !has_subject(old(self)@, id) && name_taken(old(self)@, name@, parent, None) ==> r == Err::<
                (),
                StoreError,
            >(StoreError::Conflict) && final(self)@ == old(self)@,
            !has_subject(old(self)@, id) && !name_taken(old(self)@, name@, parent, None) ==> r is Ok
                && final(self)@ == (StoreView {
                subjects: old(self)@.subjects.push(SubjectRowView { id, name: name@, parent_id: parent }),
                ..old(self)@
            }),
    {
        let ghost v = self@;
        match self.find_subject(id) {
            Some(_) => {
                return Err(StoreError::StorageFailure);
            },
            None => {},
        }
        if self.taken(name, parent, None) {
            return Err(StoreError::Conflict);
        }
        self.subjects.push(SubjectRow { id, name: name.to_owned(), parent_id: parent });
        assert(self@.subjects =~= v.subjects.push(SubjectRowView { id, name: name@, parent_id: parent }));
        assert(self@ =~= (StoreView {
            subjects: v.subjects.push(SubjectRowView { id, name: name@, parent_id: parent }),
            ..v
        }));
        Ok(())
    }

    /// Adds a subject without parent under a given identifier.
    pub fn add_subject_with_id(&mut self, id: SubjectId, name: String) -> (r: Result<SubjectData, StoreError>)
        requires
            old(self).wf(),
        ensures
            final(self).wf(),
            has_subject(old(self)@, id) ==> r == Err::<SubjectData, StoreError>(StoreError::StorageFailure)
                && final(self)@ == old(self)@,
            !has_subject(old(self)@, id) && name_taken(old(self)@, name@, None, None) ==> r == Err::<
                SubjectData,
                StoreError,
            >(StoreError::Conflict) && final(self)@ == old(self)@,
            !has_subject(old(self)@, id) && !name_taken(old(self)@, name@, None, None) ==> r is Ok
                && final(self)@ == (StoreView {
                subjects: old(self)@.subjects.push(SubjectRowView { id, name: name@, parent_id: None }),
                ..old(self)@
            }) && r->Ok_0@ == (SubjectView { id, name: name@, parent_id: None, children: Seq::empty() }),
    {
        match self.insert_subject(id, name.as_str(), None) {
            Ok(()) => Ok(SubjectData { id, name, parent_id: None, children: Vec::new() }),
            Err(e) => Err(e),
        }
    }

    /// Adds a subject without parent under a fresh random identifier.
    pub fn add_subject(&mut self, name: String) -> (r: Result<SubjectData, StoreError>)
        requires
            old(self).wf(),
        ensures
            final(self).wf(),
            name_taken(old(self)@, name@, None, None) ==> r is Err && final(self)@ == old(self)@,
            r is Err ==> final(self)@ == old(self)@,
            r is Err ==> name_taken(old(self)@, name@, None, None) || old(self)@.subjects.len() > 0,
            r is Ok ==> r->Ok_0.id.0 != NIL_SUBJECT && !has_subject(old(self)@, r->Ok_0.id)
                && final(self)@ == (StoreView {
                subjects: old(self)@.subjects.push(
                    SubjectRowView { id: r->Ok_0.id, name: name@, parent_id: None },
                ),
                ..old(self)@
            }) && r->Ok_0@ == (SubjectView {
                id: r->Ok_0.id,
                name: name@,
                parent_id: None,
                children: Seq::empty(),
            }),
    {
        let id = SubjectId(crate::clock::random_id());
        proof {
            if has_subject(self@, id) {
                assert(self@.subjects.len() > 0);
            }
        }
        self.add_subject_with_id(id, name)
    }

    /// Inserts a subject as it is, with its identifier and parent.
    pub fn import_subject(&mut self, subject: &SubjectData) -> (r: Result<(), StoreError>)
        requires
            old(self).wf(),
        ensures
            final(self).wf(),
            has_subject(old(self)@, subject.id) ==> r == Err::<(), StoreError>(StoreError::StorageFailure)
                && final(self)@ == old(self)@,
            !has_subject(old(self)@, subject.id) && name_taken(old(self)@, subject.name@, subject.parent_id, None)
                ==> r == Err::<(), StoreError>(StoreError::Conflict) && final(self)@ == old(self)@,
            !has_subject(old(self)@, subject.id) && !name_taken(old(self)@, subject.name@, subject.parent_id, None)
                ==> r is Ok && final(self)@ == (StoreView {
                subjects: old(self)@.subjects.push(
                    SubjectRowView { id: subject.id, name: subject.name@, parent_id: subject.parent_id },
                ),
                ..old(self)@
            }),
    {
        self.insert_subject(subject.id, subject.name.as_str(), subject.parent_id)
    }

    /// Deletes a subject and every association with it; notes stay.
    pub fn delete_subject(&mut self, subject: SubjectId) -> (r: Result<(), StoreError>)
        requires
            old(self).wf(),
        ensures
            final(self).wf(),
            r is Ok,
            final(self)@ == (StoreView {
                subjects: if has_subject(old(self)@, subject) {
                    old(self)@.subjects.remove(subject_pos(old(self)@.subjects, subject))
                } else {
                    old(self)@.subjects
                },
                links: kept(old(self)@.links, |l: (NoteId, SubjectId)| link_stays(None, Some(subject), l)),
                rows: kept(old(self)@.rows, |r: SearchRow| row_stays(None, Some(subject), r)),
                ..old(self)@
            }),
    {
        let ghost v = self@;
        self.remove_links_where(None, Some(subject));
        match self.find_subject(subject) {
            Some(p) => {
                let ghost mid = self@;
                self.subjects.remove(p);
                proof {
                    let w = self@;
                    assert(w.subjects =~= mid.subjects.remove(p as int));
                    assert forall|i: int, j: int| 0 <= i < j < w.subjects.len() implies w.subjects[i].id
                        != w.subjects[j].id by {
                        let i0 = if i < p { i } else { i + 1 };
                        let j0 = if j < p { j } else { j + 1 };
                        assert(w.subjects[i] == mid.subjects[i0]);
                        assert(w.subjects[j] == mid.subjects[j0]);
                    }
                }
            },
            None => {},
        }
        assert(self@ =~= (StoreView {
            subjects: if has_subject(v, subject) {
                v.subjects.remove(subject_pos(v.subjects, subject))
            } else {
                v.subjects
            },
            links: kept(v.links, |l: (NoteId, SubjectId)| link_stays(None, Some(subject), l)),
            rows: kept(v.rows, |r: SearchRow| row_stays(None, Some(subject), r)),
            ..v
        }));
        Ok(())
    }

    /// Moves a subject under another parent, or to the top with `None`;
    /// fails with `Conflict` when a sibling there has the same name. An
    /// unknown subject is left alone.
    pub fn set_subject_parent(&mut self, subject: SubjectId, parent: Option<SubjectId>) -> (r: Result<(), StoreError>)
        requires
            old(self).wf(),
        ensures
            final(self).wf(),
            !has_subject(old(self)@, subject) ==> r is Ok && final(self)@ == old(self)@,
            has_subject(old(self)@, subject) ==> {
                let p = subject_pos(old(self)@.subjects, subject);
                let row = old(self)@.subjects[p];
                &&& name_taken(old(self)@, row.name, parent, Some(subject)) ==> r == Err::<(), StoreError>(
                    StoreError::Conflict,
                ) && final(self)@ == old(self)@
                &&& !name_taken(old(self)@, row.name, parent, Some(subject)) ==> r is Ok && final(self)@
                    == (StoreView {
                    subjects: old(self)@.subjects.update(p, SubjectRowView { parent_id: parent, ..row }),
                    ..old(self)@
                })
            },
    {
        let ghost v = self@;
        let p = match self.find_subject(subject) {
            Some(p) => p,
            None => {
                return Ok(());
            },
        };
        if self.taken(self.subjects[p].name.as_str(), parent, Some(subject)) {
            return Err(StoreError::Conflict);
        }
        let name = self.subjects[p].name.clone();
        self.subjects.set(p, SubjectRow { id: subject, name, parent_id: parent });
        proof {
            let w = self@;
            assert(w.subjects =~= v.subjects.update(
                p as int,
                SubjectRowView { parent_id: parent, ..v.subjects[p as int] },
            ));
            assert forall|i: int, j: int| 0 <= i < j < w.subjects.len() implies w.subjects[i].id
                != w.subjects[j].id by {
                assert(v.subjects[i].id != v.subjects[j].id);
            }
        }
        Ok(())
    }

    /// The identifiers of the subjects under a parent, in ascending order.
    fn children_of(&self, id: SubjectId) -> (r: Vec<SubjectId>)
        ensures
            ascending(r@),
            forall|c: SubjectId|
                #![trigger r@.contains(c)]
                r@.contains(c) <==> (c.0 != NIL_SUBJECT && exists|j: int|
                    0 <= j < self@.subjects.len() && self@.subjects[j].id == c
                        && self@.subjects[j].parent_id == Some(id)),
    {
        let mut out: Vec<SubjectId> = Vec::new();
        let mut i: usize = 0;
        while i < self.subjects.len()
            invariant
                i <= self@.subjects.len(),
                ascending(out@),
                forall|c: SubjectId|
                    #![trigger out@.contains(c)]
                    out@.contains(c) <==> (c.0 != NIL_SUBJECT && exists|j: int|
                        0 <= j < i && self@.subjects[j].id == c && self@.subjects[j].parent_id
                            == Some(id)),
            decreases self@.subjects.len() - i,
        {
            let ghost pre = out@;
            let row = &self.subjects[i];
            if row.parent_id == Some(id) && row.id.0 != NIL_SUBJECT {
                sorted_insert(&mut out, row.id);
            }
            assert forall|c: SubjectId|
                #![trigger out@.contains(c)]
                out@.contains(c) <==> (c.0 != NIL_SUBJECT && exists|j: int|
                    0 <= j < i + 1 && self@.subjects[j].id == c && self@.subjects[j].parent_id
                        == Some(id)) by {
                assert(pre.contains(c) <==> (c.0 != NIL_SUBJECT && exists|j: int|
                    0 <= j < i && self@.subjects[j].id == c && self@.subjects[j].parent_id == Some(id)));
                if exists|j: int|
                    0 <= j < i + 1 && self@.subjects[j].id == c && self@.subjects[j].parent_id == Some(id) {
                    let j = choose|j: int|
                        0 <= j < i + 1 && self@.subjects[j].id == c && self@.subjects[j].parent_id
                            == Some(id);
                    if j == i {
                        assert(self@.subjects[i as int].id == row.id);
                    }
                }
            }
            i = i + 1;
        }
        out
    }

    /// The subject with this identifier, with its children, or `NotFound`.
    pub fn get_subject(&self, id: SubjectId) -> (r: Result<SubjectData, StoreError>)
        requires
            self.wf(),
        ensures
            has_subject(self@, id) ==> r is Ok && subject_data(self@, id, r->Ok_0@),
            !has_subject(self@, id) ==> r == Err::<SubjectData, StoreError>(StoreError::NotFound),
    {
        match self.find_subject(id) {
            Some(p) => {
                let row = &self.subjects[p];
                let d = SubjectData {
                    id: row.id,
                    name: row.name.clone(),
                    parent_id: row.parent_id,
                    children: self.children_of(id),
                };
                assert(subject_data(self@, id, d@)) by {
                    reveal(subject_data);
                }
                Ok(d)
            },
            None => Err(StoreError::NotFound),
        }
    }

    /// Every subject with its children, ordered by name, then by identifier.
    #[verifier::rlimit(50)]
    pub fn get_subjects(&self) -> (r: Result<Vec<SubjectData>, StoreError>)
        requires
            self.wf(),
        ensures
            r is Ok,
            r->Ok_0@.len() == self@.subjects.len(),
            forall|k: int| 0 <= k < r->Ok_0@.len() ==> has_subject(self@, #[trigger] r->Ok_0@[k].id)
                && subject_data(self@, r->Ok_0@[k].id, r->Ok_0@[k]@),
            forall|i: int|
                0 <= i < self@.subjects.len() ==> lists_subject(r->Ok_0@, #[trigger] self@.subjects[i].id),
            forall|k: int|
                0 <= k < r->Ok_0@.len() - 1 ==> !subject_before(r->Ok_0@[k + 1]@, #[trigger] r->Ok_0@[k]@),
    {
        let mut out: Vec<SubjectData> = Vec::new();
        let mut i: usize = 0;
        while i < self.subjects.len()
            invariant
                self.wf(),
                i <= self@.subjects.len(),
                out@.len() == i,
                forall|k: int| 0 <= k < out@.len() ==> has_subject(self@, #[trigger] out@[k].id)
                    && subject_data(self@, out@[k].id, out@[k]@),
                forall|m: int| 0 <= m < i ==> lists_subject(out@, #[trigger] self@.subjects[m].id),
                forall|k: int|
                    0 <= k < out@.len() - 1 ==> !subject_before(out@[k + 1]@, #[trigger] out@[k]@),
            decreases self@.subjects.len() - i,
        {
            let row = &self.subjects[i];
            let id = row.id;
            proof {
                self.lemma_subject_pos(i as int);
            }
            let d = SubjectData {
                id,
                name: row.name.clone(),
                parent_id: row.parent_id,
                children: self.children_of(id),
            };
            assert(subject_data(self@, id, d@)) by {
                reveal(subject_data);
            }
            let ghost pre = out@;
            let k = insert_by_name(&mut out, d);
            proof {
                assert forall|j: int| 0 <= j < out@.len() implies has_subject(self@, #[trigger] out@[j].id)
                    && subject_data(self@, out@[j].id, out@[j]@) by {
                    if j < k {
                        assert(out@[j] == pre[j]);
                    } else if j > k {
                        assert(out@[j] == pre[j - 1]);
                    }
                }
                assert forall|m: int| 0 <= m < i + 1 implies lists_subject(out@, #[trigger] self@.subjects[m].id) by {
                    if m < i {
                        assert(lists_subject(pre, self@.subjects[m].id));
                        let j = choose|j: int| 0 <= j < pre.len() && pre[j].id == self@.subjects[m].id;
                        if j < k {
                            assert(out@[j] == pre[j]);
                        } else {
                            assert(out@[j + 1] == pre[j]);
                        }
                    } else {
                        assert(out@[k as int].id == self@.subjects[m].id);
                    }
                }
            }
            i = i + 1;
        }
        Ok(out)
    }

    /// Every association of a note with a subject, the nil subject included.
    pub fn get_notes_subjects(&self) -> (r: Result<Vec<(NoteId, SubjectId)>, StoreError>)
        ensures
            r is Ok,
            r->Ok_0@ == self@.links,
    {
        let mut out: Vec<(NoteId, SubjectId)> = Vec::new();
        let mut i: usize = 0;
        while i < self.links.len()
            invariant
                i <= self@.links.len(),
                out@ == self@.links.take(i as int),
            decreases self@.links.len() - i,
        {
            out.push(self.links[i]);
            assert(self@.links.take(i + 1) =~= self@.links.take(i as int).push(self@.links[i as int]));
            i = i + 1;
        }
        assert(self@.links.take(i as int) =~= self@.links);
        Ok(out)
    }

    /// Associates a stored note with a subject, with its search row; fails
    /// when the note is not stored or the association exists.
    pub fn import_notes_subject(&mut self, note: NoteId, subject: SubjectId) -> (r: Result<(), StoreError>)
        requires
            old(self).wf(),
        ensures
            final(self).wf(),
            !has_note(old(self)@, note) || old(self)@.links.contains((note, subject)) ==> r == Err::<
                (),
                StoreError,
            >(StoreError::StorageFailure) && final(self)@ == old(self)@,
            has_note(old(self)@, note) && !old(self)@.links.contains((note, subject)) ==> r is Ok
                && final(self)@ == (StoreView {
                links: old(self)@.links.push((note, subject)),
                rows: old(self)@.rows.push(mirror(old(self)@.notes, (note, subject))),
                ..old(self)@
            }),
    {
        let ghost v = self@;
        let p = match self.find_note(note) {
            Some(p) => p,
            None => {
                return Err(StoreError::StorageFailure);
            },
        };
        if self.has_link((note, subject)) {
            return Err(StoreError::StorageFailure);
        }
        let row = SearchRow {
            note_id: note,
            subject_id: subject,
            created_at: self.notes[p].created_at,
            task_state: self.notes[p].task_state,
        };
        self.links.push((note, subject));
        self.rows.push(row);
        proof {
            let w = self@;
            assert(w.notes == v.notes);
            assert forall|i: int, j: int| 0 <= i < j < w.links.len() implies w.links[i] != w.links[j] by {
                if j == v.links.len() {
                    assert(v.links[i] == w.links[i]);
                }
            }
            assert forall|i: int| 0 <= i < w.links.len() implies has_note(w, #[trigger] w.links[i].0)
                && w.rows[i] == mirror(w.notes, w.links[i]) by {
                if i < v.links.len() {
                    assert(w.links[i] == v.links[i]);
                    assert(w.rows[i] == v.rows[i]);
                    assert(has_note(v, v.links[i].0));
                }
            }
            assert(w =~= (StoreView {
                links: v.links.push((note, subject)),
                rows: v.rows.push(mirror(v.notes, (note, subject))),
                ..v
            }));
        }
        Ok(())
    }
}


/// Inserts a subject before the first one that it comes before; returns where.
fn insert_by_name(out: &mut Vec<SubjectData>, d: SubjectData) -> (k: usize)
    requires
        forall|m: int|
            0 <= m < old(out)@.len() - 1 ==> !subject_before(old(out)@[m + 1]@, #[trigger] old(out)@[m]@),
    ensures
        k <= old(out)@.len(),
        final(out)@ == old(out)@.insert(k as int, d),
        forall|m: int|
            0 <= m < final(out)@.len() - 1 ==> !subject_before(final(out)@[m + 1]@, #[trigger] final(out)@[m]@),
{
    let mut k: usize = 0;
    while k < out.len() && !(name_less(d.name.as_str(), out[k].name.as_str()) || (
    crate::text::same_chars(
        crate::text::chars_of(d.name.as_str()).as_slice(),
        crate::text::chars_of(out[k].name.as_str()).as_slice(),
    ) && d.id.0 < out[k].id.0))
        invariant
            k <= out@.len(),
            forall|m: int| 0 <= m < k ==> !subject_before(d@, #[trigger] out@[m]@),
        decreases out@.len() - k,
    {
        k = k + 1;
    }
    let ghost pre = out@;
    out.insert(k, d);
    proof {
        assert forall|m: int|
            0 <= m < out@.len() - 1 implies !subject_before(out@[m + 1]@, #[trigger] out@[m]@) by {
            if m + 1 < k {
                assert(out@[m] == pre[m] && out@[m + 1] == pre[m + 1]);
            } else if m + 1 == k {
                assert(out@[m] == pre[m]);
            } else if m == k {
                assert(out@[m + 1] == pre[m]);
                assert(subject_before(d@, pre[m]@));
                lemma_name_lt_asym(d@.name, pre[m]@.name);
            } else {
                assert(out@[m] == pre[m - 1] && out@[m + 1] == pre[m]);
            }
        }
    }
    k
}


/// An element of a sequence that satisfies the predicate is kept.
pub proof fn lemma_kept_contains_rev<T>(s: Seq<T>, p: spec_fn(T) -> bool, x: T)
    requires
        s.contains(x),
        p(x),
    ensures
        kept(s, p).contains(x),
    decreases s.len(),
{
    if s.last() == x {
        assert(kept(s, p).last() == x);
        assert(kept(s, p)[kept(s, p).len() - 1] == x);
    } else {
        let k = choose|k: int| 0 <= k < s.len() && s[k] == x;
        assert(s.drop_last()[k] == x);
        lemma_kept_contains_rev(s.drop_last(), p, x);
        let r = kept(s.drop_last(), p);
        let j = choose|j: int| 0 <= j < r.len() && r[j] == x;
        if p(s.last()) {
            assert(kept(s, p)[j] == x);
        }
    }
}

/// Inserting a note leaves what the store hands out for every other stored note.
pub proof fn lemma_inserted_keeps_note(v: StoreView, n: NoteView, id: NoteId, x: NoteView)
    requires
        tables_wf(v),
        tables_wf(inserted(v, n)),
        can_insert(v, n),
        has_note(v, id),
        note_data(v, id, x),
    ensures
        has_note(inserted(v, n), id),
        note_data(inserted(v, n), id, x),
{
    let w = inserted(v, n);
    let p = note_pos(v.notes, id);
    assert(w.notes[p] == v.notes[p]);
    lemma_pos_unique(w, p);
    let ls = links_for(n.id, or_nil(n.subjects));
    assert(v.notes[p].id == id);
    assert(id != n.id);
    assert forall|s: SubjectId| w.links.contains((id, s)) <==> v.links.contains((id, s)) by {
        if w.links.contains((id, s)) {
            let k = choose|k: int| 0 <= k < w.links.len() && w.links[k] == (id, s);
            if k >= v.links.len() {
                assert(w.links[k] == ls[k - v.links.len()]);
            } else {
                assert(v.links[k] == (id, s));
            }
        }
        if v.links.contains((id, s)) {
            let k = choose|k: int| 0 <= k < v.links.len() && v.links[k] == (id, s);
            assert(w.links[k] == (id, s));
        }
    }
}

/// Deleting a note leaves what the store hands out for every other stored note.
pub proof fn lemma_deleted_keeps_note(v: StoreView, gone: NoteId, id: NoteId, x: NoteView)
    requires
        tables_wf(v),
        tables_wf(deleted(v, gone)),
        has_note(v, gone),
        has_note(v, id),
        id != gone,
        note_data(v, id, x),
    ensures
        has_note(deleted(v, gone), id),
        note_data(deleted(v, gone), id, x),
{
    let w = deleted(v, gone);
    let p = note_pos(v.notes, gone);
    let q = note_pos(v.notes, id);
    assert(q != p);
    let q2 = if q < p { q } else { q - 1 };
    assert(w.notes[q2] == v.notes[q]);
    lemma_pos_unique(w, q2);
    let f = |l: (NoteId, SubjectId)| link_stays(Some(gone), None, l);
    assert forall|s: SubjectId| w.links.contains((id, s)) <==> v.links.contains((id, s)) by {
        if w.links.contains((id, s)) {
            lemma_kept_contains(v.links, f, (id, s));
        }
        if v.links.contains((id, s)) {
            lemma_kept_contains_rev(v.links, f, (id, s));
        }
    }
}


impl Store {
    /// The notes associated with a subject, in the order of their associations.
    pub fn notes_of_subject(&self, subject: SubjectId) -> (r: Vec<NoteId>)
        ensures
            r@ == subject_notes(self@.links, subject),
    {
        let mut out: Vec<NoteId> = Vec::new();
        let mut i: usize = 0;
        while i < self.links.len()
            invariant
                i <= self@.links.len(),
                out@ == subject_notes(self@.links.take(i as int), subject),
            decreases self@.links.len() - i,
        {
            let l = self.links[i];
            assert(self@.links.take(i + 1).drop_last() =~= self@.links.take(i as int));
            assert(self@.links.take(i + 1).last() == l);
            if l.1 == subject {
                out.push(l.0);
            }
            i = i + 1;
        }
        assert(self@.links.take(i as int) =~= self@.links);
        out
    }

    /// Adds a subject row back with its associations with these notes,
    /// all at once or not at all.
    pub fn restore_subject(
        &mut self,
        id: SubjectId,
        name: &str,
        parent: Option<SubjectId>,
        notes: &Vec<NoteId>,
    ) -> (r: Result<(), StoreError>)
        requires
            old(self).wf(),
        ensures
            final(self).wf(),
            has_subject(old(self)@, id) ==> r == Err::<(), StoreError>(StoreError::StorageFailure)
                && final(self)@ == old(self)@,
            !has_subject(old(self)@, id) && name_taken(old(self)@, name@, parent, None) ==> r == Err::<
                (),
                StoreError,
            >(StoreError::Conflict) && final(self)@ == old(self)@,
            !has_subject(old(self)@, id) && !name_taken(old(self)@, name@, parent, None) && !restorable(
                old(self)@,
                id,
                notes@,
            ) ==> r == Err::<(), StoreError>(StoreError::StorageFailure) && final(self)@ == old(self)@,
            !has_subject(old(self)@, id) && !name_taken(old(self)@, name@, parent, None) && restorable(
                old(self)@,
                id,
                notes@,
            ) ==> r is Ok && final(self)@ == restored(old(self)@, id, name@, parent, notes@),
    {
        let ghost v = self@;
        match self.find_subject(id) {
            Some(_) => {
                return Err(StoreError::StorageFailure);
            },
            None => {},
        }
        if self.taken(name, parent, None) {
            return Err(StoreError::Conflict);
        }
        let mut k: usize = 0;
        while k < notes.len()
            invariant
                self.wf(),
                self@ == v,
                !has_subject(v, id),
                !name_taken(v, name@, parent, None),
                k <= notes@.len(),
                forall|j: int| 0 <= j < k ==> has_note(v, #[trigger] notes@[j]),
                forall|j: int| 0 <= j < k ==> !v.links.contains((#[trigger] notes@[j], id)),
                forall|a: int, b: int| 0 <= a < b < notes@.len() && a < k ==> notes@[a] != notes@[b],
            decreases notes@.len() - k,
        {
            match self.find_note(notes[k]) {
                Some(_) => {},
                None => {
                    return Err(StoreError::StorageFailure);
                },
            }
            if self.has_link((notes[k], id)) {
                return Err(StoreError::StorageFailure);
            }
            let mut j: usize = k + 1;
            while j < notes.len()
                invariant
                    self.wf(),
                    self@ == v,
                    !has_subject(v, id),
                    !name_taken(v, name@, parent, None),
                    k < j <= notes@.len(),
                    forall|b: int| k < b < j ==> notes@[k as int] != notes@[b],
                decreases notes@.len() - j,
            {
                if notes[j] == notes[k] {
                    return Err(StoreError::StorageFailure);
                }
                j = j + 1;
            }
            k = k + 1;
        }
        let _ = self.insert_subject(id, name, parent);
        let ghost base = self@;
        let ghost ls = notes@.map_values(|n: NoteId| (n, id));
        let mut k: usize = 0;
        while k < notes.len()
            invariant
                self.wf(),
                k <= notes@.len(),
                restorable(v, id, notes@),
                ls == notes@.map_values(|n: NoteId| (n, id)),
                self@ == (StoreView {
                    links: v.links + ls.take(k as int),
                    rows: v.rows + ls.take(k as int).map_values(|l: (NoteId, SubjectId)| mirror(v.notes, l)),
                    ..base
                }),
                base.notes == v.notes,
                base.links == v.links,
                base.rows == v.rows,
            decreases notes@.len() - k,
        {
            let n = notes[k];
            proof {
                assert(has_note(self@, n));
                if self@.links.contains((n, id)) {
                    let j = choose|j: int| 0 <= j < self@.links.len() && self@.links[j] == (n, id);
                    if j >= v.links.len() {
                        assert(ls.take(k as int)[j - v.links.len()] == (n, id));
                        assert(notes@[j - v.links.len()] == n);
                        assert(notes@[j - v.links.len()] != notes@[k as int]);
                    } else {
                        assert(v.links[j] == (n, id));
                        assert(v.links.contains((n, id)));
                    }
                }
            }
            let _ = self.import_notes_subject(n, id);
            proof {
                assert(ls.take(k + 1) =~= ls.take(k as int).push((n, id)));
                assert(ls.take(k + 1).map_values(|l: (NoteId, SubjectId)| mirror(v.notes, l)) =~= ls.take(
                    k as int,
                ).map_values(|l: (NoteId, SubjectId)| mirror(v.notes, l)).push(mirror(v.notes, (n, id))));
                assert(self@ =~= (StoreView {
                    links: v.links + ls.take(k + 1),
                    rows: v.rows + ls.take(k + 1).map_values(|l: (NoteId, SubjectId)| mirror(v.notes, l)),
                    ..base
                }));
            }
            k = k + 1;
        }
        assert(ls.take(k as int) =~= ls);
        assert(self@ =~= restored(v, id, name@, parent, notes@));
        Ok(())
    }
}

} // verus!
