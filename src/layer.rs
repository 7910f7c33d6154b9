//! The undo/redo log: every mutation of the store goes through here as an
//! action, its inverse is recorded, and the read caches are kept coherent.

use std::collections::VecDeque;

use vstd::prelude::*;

use crate::cache::{key_pos, stored, Cache};
use crate::model::{
    applied, built, or_else, BuilderView, NoteBuilder, NoteData, NoteId, NoteSearch, NoteView,
    StoreError, SubjectData, SubjectId, SubjectView, Timestamp,
};
use crate::store::{
    can_insert, deleted, distinct, has_note, tables_wf, has_subject, inserted, is_listing, kept, lemma_deleted_keeps_note,
    lemma_inserted_keeps_note, link_stays, name_taken, note_data, row_stays, subject_pos, SearchRow,
    restorable, restored, subject_notes, Store, StoreView, SubjectRowView, PAGE_SIZE, subject_data, lists_subject, subject_before,
};

verus! {

/// The most actions that each of the undo and redo queues keeps.
pub const QUEUE_LIMIT: usize = 64;

/// Whether an action is done for the first time (or redone) or undone.
#[derive(Debug, Clone, Copy, PartialEq, Eq, Structural)]
pub enum ApplyDirection {
    Forward,
    Backward,
}

/// What a performed action invalidates.
#[derive(Debug, Clone, Copy, PartialEq, Eq, Structural)]
pub enum LayerEffect {
    /// Every search result.
    InvalidateQuery,
    /// Every search result and the note with this identifier.
    InvalidateNote(NoteId),
    /// The subjects, and with them every note and search result.
    InvalidateSubjects,
}

/// A mutation of the store that the log can undo.
#[derive(Debug, Clone, PartialEq)]
pub enum LayerAction {
    CreateNote(NoteBuilder),
    DeleteNote(NoteId),
    EditNote(NoteId, NoteBuilder),
    AddSubject(Option<SubjectId>, String),
    RemoveSubject(SubjectId),
    SetSubjectParent { subject: SubjectId, parent: Option<SubjectId> },
    /// Puts a removed subject back, under its parent, with its notes.
    RestoreSubject { subject: SubjectId, name: String, parent: Option<SubjectId>, notes: Vec<NoteId> },
}

/// The mathematical value of an action.
pub enum ActionView {
    CreateNote(BuilderView),
    DeleteNote(NoteId),
    EditNote(NoteId, BuilderView),
    AddSubject(Option<SubjectId>, Seq<char>),
    RemoveSubject(SubjectId),
    SetSubjectParent { subject: SubjectId, parent: Option<SubjectId> },
    RestoreSubject { subject: SubjectId, name: Seq<char>, parent: Option<SubjectId>, notes: Seq<NoteId> },
}

impl View for LayerAction {
    type V = ActionView;

    open spec fn view(&self) -> ActionView {
        match self {
            LayerAction::CreateNote(b) => ActionView::CreateNote(b@),
            LayerAction::DeleteNote(id) => ActionView::DeleteNote(*id),
            LayerAction::EditNote(id, b) => ActionView::EditNote(*id, b@),
            LayerAction::AddSubject(id, name) => ActionView::AddSubject(*id, name@),
            LayerAction::RemoveSubject(id) => ActionView::RemoveSubject(*id),
            LayerAction::SetSubjectParent { subject, parent } => ActionView::SetSubjectParent {
                subject: *subject,
                parent: *parent,
            },
            LayerAction::RestoreSubject { subject, name, parent, notes } => ActionView::RestoreSubject {
                subject: *subject,
                name: name@,
                parent: *parent,
                notes: notes@,
            },
        }
    }
}

impl LayerAction {
    /// A copy of the action.
    pub fn duplicate(&self) -> (r: LayerAction)
        ensures
            r@ == self@,
    {
        match self {
            LayerAction::CreateNote(b) => LayerAction::CreateNote(b.duplicate()),
            LayerAction::DeleteNote(id) => LayerAction::DeleteNote(*id),
            LayerAction::EditNote(id, b) => LayerAction::EditNote(*id, b.duplicate()),
            LayerAction::AddSubject(id, name) => LayerAction::AddSubject(*id, name.clone()),
            LayerAction::RemoveSubject(id) => LayerAction::RemoveSubject(*id),
            LayerAction::SetSubjectParent { subject, parent } => LayerAction::SetSubjectParent {
                subject: *subject,
                parent: *parent,
            },
            LayerAction::RestoreSubject { subject, name, parent, notes } => LayerAction::RestoreSubject {
                subject: *subject,
                name: name.clone(),
                parent: *parent,
                notes: notes.clone(),
            },
        }
    }
}

/// What an action invalidates.
pub open spec fn effect_of(a: ActionView) -> LayerEffect {
    match a {
        ActionView::CreateNote(_) => LayerEffect::InvalidateQuery,
        ActionView::DeleteNote(id) => LayerEffect::InvalidateNote(id),
        ActionView::EditNote(id, _) => LayerEffect::InvalidateNote(id),
        _ => LayerEffect::InvalidateSubjects,
    }
}

/// A builder that sets every field of a note.
pub open spec fn builder_of(x: NoteView) -> BuilderView {
    BuilderView {
        rowid: Some(x.rowid),
        id: Some(x.id),
        text: Some(x.text),
        subjects: Some(x.subjects),
        task_state: Some(x.task_state),
        created_at: Some(x.created_at),
        modified_at: Some(x.modified_at),
        done_at: Some(x.done_at),
    }
}

/// The builder that an edit applies: the note's identifier, and when done
/// forward without a modification time, the time `t` of the edit.
pub open spec fn edit_builder(b: BuilderView, id: NoteId, dir: ApplyDirection, t: Timestamp) -> BuilderView {
    BuilderView {
        id: Some(id),
        modified_at: if dir == ApplyDirection::Forward && b.modified_at is None {
            Some(t)
        } else {
            b.modified_at
        },
        ..b
    }
}

/// Whether a builder sets every field of the note that the store hands out
/// for `id`.
pub open spec fn restores(v: StoreView, id: NoteId, b: BuilderView) -> bool {
    exists|x: NoteView| #![trigger note_data(v, id, x)] note_data(v, id, x) && b == builder_of(x)
}

/// A queue with one more action, the oldest dropped when full.
pub open spec fn pushed(q: Seq<ActionView>, a: ActionView) -> Seq<ActionView> {
    if q.len() >= QUEUE_LIMIT {
        q.drop_first().push(a)
    } else {
        q.push(a)
    }
}

/// Whether performing action `a` in direction `dir` took the store from `v`
/// to `w`, with `inv` the action that reverses it, read from `v`.
pub open spec fn acted(v: StoreView, w: StoreView, a: ActionView, dir: ApplyDirection, inv: ActionView) -> bool {
    match a {
        ActionView::CreateNote(b) => exists|n: NoteView|
            {
                &&& exists|id: NoteId, t: Timestamp| n == built(b, id, t)
                &&& can_insert(v, n)
                &&& w == inserted(v, n)
                &&& inv == ActionView::DeleteNote(n.id)
            },
        ActionView::DeleteNote(id) => {
            &&& has_note(v, id)
            &&& w == deleted(v, id)
            &&& inv matches ActionView::CreateNote(b2) && restores(v, id, b2)
        },
        ActionView::EditNote(id, b) => exists|x: NoteView, t: Timestamp|
            #![trigger note_data(v, id, x), edit_builder(b, id, dir, t)]
            {
                &&& has_note(v, id)
                &&& note_data(v, id, x)
                &&& w == inserted(deleted(v, id), applied(edit_builder(b, id, dir, t), x))
                &&& inv matches ActionView::EditNote(id2, b2) && id2 == id && b2 == builder_of(x)
            },
        ActionView::AddSubject(sid, name) => exists|id: SubjectId|
            {
                &&& sid is Some ==> id == sid->0
                &&& !has_subject(v, id)
                &&& !name_taken(v, name, None, None)
                &&& w == (StoreView {
                    subjects: v.subjects.push(SubjectRowView { id, name, parent_id: None }),
                    ..v
                })
                &&& inv == ActionView::RemoveSubject(id)
            },
        ActionView::RemoveSubject(id) => {
            &&& has_subject(v, id)
            &&& w == (StoreView {
                subjects: v.subjects.remove(subject_pos(v.subjects, id)),
                links: kept(v.links, |l: (NoteId, SubjectId)| link_stays(None, Some(id), l)),
                rows: kept(v.rows, |r: SearchRow| row_stays(None, Some(id), r)),
                ..v
            })
            &&& inv == ActionView::RestoreSubject {
                subject: id,
                name: v.subjects[subject_pos(v.subjects, id)].name,
                parent: v.subjects[subject_pos(v.subjects, id)].parent_id,
                notes: subject_notes(v.links, id),
            }
        },
        ActionView::RestoreSubject { subject, name, parent, notes } => {
            &&& !has_subject(v, subject)
            &&& !name_taken(v, name, parent, None)
            &&& restorable(v, subject, notes)
            &&& w == restored(v, subject, name, parent, notes)
            &&& inv == ActionView::RemoveSubject(subject)
        },
        ActionView::SetSubjectParent { subject, parent } => {
            let p = subject_pos(v.subjects, subject);
            &&& has_subject(v, subject)
            &&& !name_taken(v, v.subjects[p].name, parent, Some(subject))
            &&& w == (StoreView {
                subjects: v.subjects.update(p, SubjectRowView { parent_id: parent, ..v.subjects[p] }),
                ..v
            })
            &&& inv == ActionView::SetSubjectParent { subject, parent: v.subjects[p].parent_id }
        },
    }
}

/// The store behind its undo/redo log and its read caches.
pub struct DbActions {
    store: Store,
    note_cache: Cache<NoteId, NoteData>,
    query_cache: Cache<NoteSearch, Vec<NoteId>>,
    last_added_subject: Option<SubjectData>,
    undo_queue: VecDeque<LayerAction>,
    redo_queue: VecDeque<LayerAction>,
}

/// Whether every cached note and search result is what the store would give now.
pub open spec fn coherent(
    v: StoreView,
    notes: Seq<(NoteId, NoteView)>,
    queries: Seq<(NoteSearch, Seq<NoteId>)>,
) -> bool {
    &&& forall|i: int|
        0 <= i < notes.len() ==> has_note(v, #[trigger] notes[i].0) && note_data(v, notes[i].0, notes[i].1)
    &&& forall|i: int| 0 <= i < queries.len() ==> is_listing(v, #[trigger] queries[i].0, queries[i].1, PAGE_SIZE as int)
}

/// Which actions succeed on store `v`, and the error of those that fail.
/// Only an action that draws a random identifier (a note or subject created
/// without one) may fail for want of luck: then some stored identifier was
/// drawn.
pub open spec fn outcome(v: StoreView, a: ActionView, r: Result<LayerEffect, StoreError>) -> bool {
    match a {
        ActionView::CreateNote(b) => {
            let ok = distinct(or_else(b.subjects, Seq::empty())) && v.next_rowid < i64::MAX;
            &&& b.id is Some ==> (r is Ok <==> (ok && !has_note(v, b.id->0)))
            &&& r is Err ==> r->Err_0 == StoreError::StorageFailure && (!ok || v.notes.len() > 0)
        },
        ActionView::DeleteNote(id) => {
            &&& r is Ok <==> has_note(v, id)
            &&& r is Err ==> r->Err_0 == StoreError::NotFound
        },
        ActionView::EditNote(id, b) => {
            &&& !has_note(v, id) ==> r == Err::<LayerEffect, StoreError>(StoreError::NotFound)
            &&& has_note(v, id) ==> (r is Ok <==> ((b.subjects is None || distinct(b.subjects->0))
                && v.next_rowid < i64::MAX))
            &&& has_note(v, id) && r is Err ==> r->Err_0 == StoreError::StorageFailure
        },
        ActionView::AddSubject(sid, name) => match sid {
            Some(id) => {
                &&& has_subject(v, id) ==> r == Err::<LayerEffect, StoreError>(StoreError::StorageFailure)
                &&& !has_subject(v, id) && name_taken(v, name, None, None) ==> r == Err::<
                    LayerEffect,
                    StoreError,
                >(StoreError::Conflict)
                &&& !has_subject(v, id) && !name_taken(v, name, None, None) ==> r is Ok
            },
            None => {
                &&& name_taken(v, name, None, None) ==> r is Err
                &&& r is Err ==> name_taken(v, name, None, None) || (v.subjects.len() > 0 && r->Err_0
                    == StoreError::StorageFailure)
            },
        },
        ActionView::RemoveSubject(id) => {
            &&& r is Ok <==> has_subject(v, id)
            &&& r is Err ==> r->Err_0 == StoreError::NotFound
        },
        ActionView::SetSubjectParent { subject, parent } => {
            &&& !has_subject(v, subject) ==> r == Err::<LayerEffect, StoreError>(StoreError::NotFound)
            &&& has_subject(v, subject) && name_taken(
                v,
                v.subjects[subject_pos(v.subjects, subject)].name,
                parent,
                Some(subject),
            ) ==> r == Err::<LayerEffect, StoreError>(StoreError::Conflict)
            &&& has_subject(v, subject) && !name_taken(
                v,
                v.subjects[subject_pos(v.subjects, subject)].name,
                parent,
                Some(subject),
            ) ==> r is Ok
        },
        ActionView::RestoreSubject { subject, name, parent, notes } => {
            &&& has_subject(v, subject) ==> r == Err::<LayerEffect, StoreError>(StoreError::StorageFailure)
            &&& !has_subject(v, subject) && name_taken(v, name, parent, None) ==> r == Err::<
                LayerEffect,
                StoreError,
            >(StoreError::Conflict)
            &&& !has_subject(v, subject) && !name_taken(v, name, parent, None) && !restorable(
                v,
                subject,
                notes,
            ) ==> r == Err::<LayerEffect, StoreError>(StoreError::StorageFailure)
            &&& !has_subject(v, subject) && !name_taken(v, name, parent, None) && restorable(
                v,
                subject,
                notes,
            ) ==> r is Ok
        },
    }
}

/// The result of an undo or redo as the result of the action it performed.
pub open spec fn as_effect(r: Result<Option<LayerEffect>, StoreError>) -> Result<LayerEffect, StoreError> {
    match r {
        Ok(Some(e)) => Ok(e),
        Ok(None) => Err(StoreError::NotFound),
        Err(e) => Err(e),
    }
}

/// What the caches hold after an action with result `r`: unchanged on
/// failure; on success no search result, and for an effect on one note not
/// that note, for an effect on subjects no note either.
pub open spec fn caches_after(x: DbActions, y: DbActions, r: Result<LayerEffect, StoreError>) -> bool {
    &&& r is Err ==> y.cached_notes() == x.cached_notes() && y.cached_queries() == x.cached_queries()
    &&& r is Ok ==> y.cached_queries().len() == 0
    &&& r is Ok ==> match r->Ok_0 {
        LayerEffect::InvalidateQuery => y.cached_notes() == x.cached_notes(),
        LayerEffect::InvalidateNote(i) => key_pos(y.cached_notes(), i) == -1,
        LayerEffect::InvalidateSubjects => y.cached_notes().len() == 0,
    }
}

/// Whether performing action `a` in direction `dir` with result `r` took
/// the log from `x` to `y`: it succeeds or fails as `outcome` says; on
/// failure nothing changed; on success the store changed as the action says
/// and its inverse went on the undo queue (done forward) or the redo queue
/// (undone); the caches dropped what the effect names.
pub open spec fn performed(x: DbActions, y: DbActions, a: ActionView, dir: ApplyDirection, r: Result<LayerEffect, StoreError>) -> bool {
    &&& outcome(x.store_view(), a, r)
    &&& caches_after(x, y, r)
    &&& r is Err ==> y.store_view() == x.store_view() && y.undo_actions() == x.undo_actions()
        && y.redo_actions() == x.redo_actions() && y.last_subject() == x.last_subject()
    &&& r is Ok ==> r->Ok_0 == effect_of(a) && exists|inv: ActionView|
        {
            &&& acted(x.store_view(), y.store_view(), a, dir, inv)
            &&& dir == ApplyDirection::Forward ==> y.undo_actions() == pushed(x.undo_actions(), inv)
                && y.redo_actions() == x.redo_actions()
            &&& dir == ApplyDirection::Backward ==> y.redo_actions() == pushed(x.redo_actions(), inv)
                && y.undo_actions() == x.undo_actions()
        }
    &&& r is Ok ==> (a matches ActionView::AddSubject(sid, name) ==> y.last_subject() matches Some(s)
        && s.name == name && s.parent_id is None && s.children.len() == 0 && (sid is Some ==> s.id
        == sid->0) && !has_subject(x.store_view(), s.id) && has_subject(y.store_view(), s.id))
}

impl DbActions {
    /// The store's value.
    pub closed spec fn store_view(&self) -> StoreView {
        self.store@
    }

    /// The actions that undo reverses, the latest last.
    pub closed spec fn undo_actions(&self) -> Seq<ActionView> {
        self.undo_queue@.map_values(|a: LayerAction| a@)
    }

    /// The actions that redo performs again, the latest last.
    pub closed spec fn redo_actions(&self) -> Seq<ActionView> {
        self.redo_queue@.map_values(|a: LayerAction| a@)
    }

    /// The cached notes, least recently used first.
    pub closed spec fn cached_notes(&self) -> Seq<(NoteId, NoteView)> {
        self.note_cache@
    }

    /// The cached search results, least recently used first.
    pub closed spec fn cached_queries(&self) -> Seq<(NoteSearch, Seq<NoteId>)> {
        self.query_cache@
    }

    /// The subject that the last subject action added or removed.
    pub closed spec fn last_subject(&self) -> Option<SubjectView> {
        match self.last_added_subject {
            Some(s) => Some(s@),
            None => None,
        }
    }

    /// The invariant: a well-formed store, caches that agree with it, bounded queues.
    pub closed spec fn wf(&self) -> bool {
        &&& self.store.wf()
        &&& self.note_cache.wf()
        &&& self.query_cache.wf()
        &&& coherent(self.store@, self.note_cache@, self.query_cache@)
        &&& self.undo_queue@.len() <= QUEUE_LIMIT
        &&& self.redo_queue@.len() <= QUEUE_LIMIT
    }

    /// A log over a store, with empty caches and queues.
    pub fn new(store: Store) -> (r: DbActions)
        requires
            store.wf(),
        ensures
            r.wf(),
            r.store_view() == store@,
            r.undo_actions().len() == 0,
            r.redo_actions().len() == 0,
    {
        DbActions {
            store,
            note_cache: Cache::new(1024),
            query_cache: Cache::new(16),
            last_added_subject: None,
            undo_queue: VecDeque::new(),
            redo_queue: VecDeque::new(),
        }
    }

    /// The subject that the last subject action added or removed.
    pub fn last_added_subject(&self) -> (r: Option<SubjectData>)
        ensures
            match r {
                Some(s) => self.last_subject() == Some(s@),
                None => self.last_subject() is None,
            },
    {
        match &self.last_added_subject {
            Some(s) => Some(
                SubjectData {
                    id: s.id,
                    name: s.name.clone(),
                    parent_id: s.parent_id,
                    children: s.children.clone(),
                },
            ),
            None => None,
        }
    }

    /// Forgets every recorded action.
    pub fn clear_history(&mut self)
        requires
            old(self).wf(),
        ensures
            final(self).wf(),
            final(self).store_view() == old(self).store_view(),
            final(self).undo_actions().len() == 0,
            final(self).redo_actions().len() == 0,
    {
        self.undo_queue = VecDeque::new();
        self.redo_queue = VecDeque::new();
    }

    /// Whether there is an action to undo.
    pub fn can_undo(&self) -> (r: bool)
        ensures
            r == (self.undo_actions().len() > 0),
    {
        self.undo_queue.len() > 0
    }

    /// Whether there is an action to redo.
    pub fn can_redo(&self) -> (r: bool)
        ensures
            r == (self.redo_actions().len() > 0),
    {
        self.redo_queue.len() > 0
    }

    fn push_bounded(q: &mut VecDeque<LayerAction>, a: LayerAction)
        requires
            old(q)@.len() <= QUEUE_LIMIT,
        ensures
            final(q)@.map_values(|x: LayerAction| x@) == pushed(old(q)@.map_values(|x: LayerAction| x@), a@),
            final(q)@.len() <= QUEUE_LIMIT,
    {
        let ghost before = q@.map_values(|x: LayerAction| x@);
        let ghost av = a@;
        if q.len() >= QUEUE_LIMIT {
            let _ = q.pop_front();
            q.push_back(a);
            assert(q@.map_values(|x: LayerAction| x@) =~= before.drop_first().push(av));
        } else {
            q.push_back(a);
            assert(q@.map_values(|x: LayerAction| x@) =~= before.push(av));
        }
    }

    /// Records the inverse of an action done in a direction.
    fn add_backwards(&mut self, action: LayerAction, direction: ApplyDirection)
        requires
            old(self).undo_queue@.len() <= QUEUE_LIMIT,
            old(self).redo_queue@.len() <= QUEUE_LIMIT,
        ensures
            direction == ApplyDirection::Forward ==> final(self).undo_actions() == pushed(old(self).undo_actions(), action@)
                && final(self).redo_queue@ == old(self).redo_queue@,
            direction == ApplyDirection::Backward ==> final(self).redo_actions() == pushed(old(self).redo_actions(), action@)
                && final(self).undo_queue@ == old(self).undo_queue@,
            final(self).undo_queue@.len() <= QUEUE_LIMIT,
            final(self).redo_queue@.len() <= QUEUE_LIMIT,
            final(self).store == old(self).store,
            final(self).note_cache == old(self).note_cache,
            final(self).query_cache == old(self).query_cache,
    {
        match direction {
            ApplyDirection::Forward => Self::push_bounded(&mut self.undo_queue, action),
            ApplyDirection::Backward => Self::push_bounded(&mut self.redo_queue, action),
        }
    }

    /// The store behind the log.
    pub fn store(&self) -> (r: &Store)
        ensures
            r@ == self.store_view(),
            self.wf() ==> r.wf(),
    {
        &self.store
    }

    /// Empties both caches.
    fn clear_caches(&mut self)
        requires
            old(self).note_cache.wf(),
            old(self).query_cache.wf(),
        ensures
            final(self).note_cache.wf(),
            final(self).query_cache.wf(),
            final(self).note_cache@.len() == 0,
            final(self).query_cache@.len() == 0,
            final(self).note_cache.capacity() == old(self).note_cache.capacity(),
            final(self).query_cache.capacity() == old(self).query_cache.capacity(),
            final(self).store == old(self).store,
            final(self).undo_queue == old(self).undo_queue,
            final(self).redo_queue == old(self).redo_queue,
    {
        self.note_cache.clear();
        self.query_cache.clear();
    }

    fn create_note(&mut self, builder: NoteBuilder, direction: ApplyDirection) -> (r: Result<LayerEffect, StoreError>)
        requires
            old(self).wf(),
        ensures
            final(self).wf(),
            performed(*old(self), *final(self), ActionView::CreateNote(builder@), direction, r),
    {
        let ghost v = self.store@;
        let ghost b = builder@;
        proof {
            self.store.lemma_wf();
        }
        let added = self.store.add_note(builder);
        let ghost n = choose|n: NoteView|
            {
                &&& exists|id: NoteId, t: Timestamp| n == built(b, id, t)
                &&& b.id is None ==> n.id.0 != crate::model::NIL_SUBJECT
                &&& b.created_at is None && b.modified_at is None ==> n.created_at == n.modified_at
                &&& can_insert(v, n) ==> added is Ok && self.store@ == inserted(v, n) && added->Ok_0@
                    == (NoteView { rowid: v.next_rowid, ..n })
                &&& !can_insert(v, n) ==> added == Err::<NoteData, StoreError>(StoreError::StorageFailure)
                    && self.store@ == v
            };
        proof {
            let (id, t) = choose|id: NoteId, t: Timestamp| n == built(b, id, t);
            assert(n.subjects == or_else(b.subjects, Seq::empty()));
            assert(b.id is Some ==> n.id == b.id->0);
            if has_note(v, n.id) {
                assert(v.notes.len() > 0);
            }
        }
        let note = match added {
            Ok(n) => n,
            Err(e) => {
                return Err(e);
            },
        };
        proof {
            self.store.lemma_wf();
            let nc = self.note_cache@;
            assert forall|i: int| 0 <= i < nc.len() implies has_note(self.store@, #[trigger] nc[i].0)
                && note_data(self.store@, nc[i].0, nc[i].1) by {
                lemma_inserted_keeps_note(v, n, nc[i].0, nc[i].1);
                let p = crate::store::note_pos(v.notes, nc[i].0);
                assert(self.store@.notes[p] == v.notes[p]);
            }
        }
        self.query_cache.clear();
        let inv = LayerAction::DeleteNote(note.id);
        self.add_backwards(inv, direction);
        assert(acted(v, self.store@, ActionView::CreateNote(builder@), direction, inv@));
        assert(old(self).store_view() == v);
        assert({
            &&& acted(old(self).store_view(), self.store_view(), ActionView::CreateNote(builder@), direction, inv@)
            &&& direction == ApplyDirection::Forward ==> self.undo_actions() == pushed(old(self).undo_actions(), inv@)
                && self.redo_actions() == old(self).redo_actions()
            &&& direction == ApplyDirection::Backward ==> self.redo_actions() == pushed(old(self).redo_actions(), inv@)
                && self.undo_actions() == old(self).undo_actions()
        });
        Ok(LayerEffect::InvalidateQuery)
    }

    fn delete_note_by_id(&mut self, id: NoteId, direction: ApplyDirection) -> (r: Result<LayerEffect, StoreError>)
        requires
            old(self).wf(),
        ensures
            final(self).wf(),
            performed(*old(self), *final(self), ActionView::DeleteNote(id), direction, r),
    {
        let ghost v = self.store@;
        proof {
            self.store.lemma_wf();
        }
        let note = match self.store.get_note(id) {
            Ok(n) => n,
            Err(e) => {
                return Err(e);
            },
        };
        match self.store.delete_note(id) {
            Ok(()) => {},
            Err(e) => {
                return Err(e);
            },
        }
        proof {
            self.store.lemma_wf();
        }
        let _ = self.note_cache.invalidate_key(&id);
        proof {
            let nc = self.note_cache@;
            let before = old(self).note_cache@;
            assert forall|i: int| 0 <= i < nc.len() implies has_note(self.store@, #[trigger] nc[i].0)
                && note_data(self.store@, nc[i].0, nc[i].1) by {
                let p = key_pos(before, id);
                let i0 = if p >= 0 && i >= p { i + 1 } else { i };
                assert(nc[i] == before[i0]);
                if nc[i].0 == id {
                    assert(before[p].0 == id);
                    assert(before[i0].0 != before[p].0);
                }
                lemma_deleted_keeps_note(v, id, nc[i].0, nc[i].1);
            }
        }
        self.query_cache.clear();
        let b2 = note.to_builder();
        assert(b2@ == builder_of(note@));
        assert(note_data(v, id, note@));
        let inv = LayerAction::CreateNote(b2);
        self.add_backwards(inv, direction);
        assert(restores(v, id, builder_of(note@)));
        assert({
            &&& acted(old(self).store_view(), self.store_view(), ActionView::DeleteNote(id), direction, inv@)
            &&& direction == ApplyDirection::Forward ==> self.undo_actions() == pushed(old(self).undo_actions(), inv@)
                && self.redo_actions() == old(self).redo_actions()
            &&& direction == ApplyDirection::Backward ==> self.redo_actions() == pushed(old(self).redo_actions(), inv@)
                && self.undo_actions() == old(self).undo_actions()
        });
        Ok(LayerEffect::InvalidateNote(id))
    }

    fn edit_note_with(&mut self, id: NoteId, builder: NoteBuilder, direction: ApplyDirection) -> (r: Result<LayerEffect, StoreError>)
        requires
            old(self).wf(),
        ensures
            final(self).wf(),
            performed(*old(self), *final(self), ActionView::EditNote(id, builder@), direction, r),
    {
        let ghost v = self.store@;
        let ghost b0 = builder@;
        proof {
            self.store.lemma_wf();
        }
        let mut b = builder.with_id(id);
        let mut t: Timestamp = 0;
        if direction == ApplyDirection::Forward && b.modified_at.is_none() {
            t = crate::clock::now();
            b = b.modified_at(t);
        }
        assert(b@ == edit_builder(b0, id, direction, t));
        let old_note = match self.store.get_note(id) {
            Ok(n) => n,
            Err(e) => {
                return Err(e);
            },
        };
        let inv = LayerAction::EditNote(id, old_note.to_builder());
        let note = b.apply_to_note(&old_note);
        assert(note.id == id);
        let ghost nv = note@;
        match self.store.update_note(note) {
            Ok(()) => {},
            Err(e) => {
                return Err(e);
            },
        }
        proof {
            self.store.lemma_wf();
            assert(self.store@ == inserted(deleted(v, id), nv));
            assert(tables_wf(deleted(v, id)));
            assert(can_insert(deleted(v, id), nv));
        }
        let _ = self.note_cache.invalidate_key(&id);
        proof {
            let nc = self.note_cache@;
            let before = old(self).note_cache@;
            assert forall|i: int| 0 <= i < nc.len() implies has_note(self.store@, #[trigger] nc[i].0)
                && note_data(self.store@, nc[i].0, nc[i].1) by {
                let p = key_pos(before, id);
                let i0 = if p >= 0 && i >= p { i + 1 } else { i };
                assert(nc[i] == before[i0]);
                if nc[i].0 == id {
                    assert(before[p].0 == id);
                    assert(before[i0].0 != before[p].0);
                }
                assert(nc[i].0 != id);
                assert(has_note(v, nc[i].0) && note_data(v, nc[i].0, nc[i].1));
                lemma_deleted_keeps_note(v, id, nc[i].0, nc[i].1);
                assert(has_note(deleted(v, id), nc[i].0));
                lemma_inserted_keeps_note(deleted(v, id), nv, nc[i].0, nc[i].1);
            }
        }
        self.query_cache.clear();
        self.add_backwards(inv, direction);
        assert({
            &&& acted(old(self).store_view(), self.store_view(), ActionView::EditNote(id, builder@), direction, inv@)
            &&& direction == ApplyDirection::Forward ==> self.undo_actions() == pushed(old(self).undo_actions(), inv@)
                && self.redo_actions() == old(self).redo_actions()
            &&& direction == ApplyDirection::Backward ==> self.redo_actions() == pushed(old(self).redo_actions(), inv@)
                && self.undo_actions() == old(self).undo_actions()
        });
        Ok(LayerEffect::InvalidateNote(id))
    }

    fn add_subject(&mut self, id: Option<SubjectId>, name: String, direction: ApplyDirection) -> (r: Result<LayerEffect, StoreError>)
        requires
            old(self).wf(),
        ensures
            final(self).wf(),
            performed(*old(self), *final(self), ActionView::AddSubject(id, name@), direction, r),
    {
        let ghost v = self.store@;
        let sid = match id {
            Some(s) => s,
            None => SubjectId(crate::clock::random_id()),
        };
        let ghost nm = name@;
        let added = self.store.add_subject_with_id(sid, name);
        proof {
            if has_subject(v, sid) {
                assert(v.subjects.len() > 0);
            }
        }
        let subject = match added {
            Ok(s) => s,
            Err(e) => {
                return Err(e);
            },
        };
        self.clear_caches();
        let inv = LayerAction::RemoveSubject(sid);
        self.add_backwards(inv, direction);
        self.last_added_subject = Some(subject);
        proof {
            let w = self.store@;
            assert(w.subjects[v.subjects.len() as int].id == sid);
            assert(has_subject(w, sid));
        }
        assert({
            &&& acted(old(self).store_view(), self.store_view(), ActionView::AddSubject(id, name@), direction, inv@)
            &&& direction == ApplyDirection::Forward ==> self.undo_actions() == pushed(old(self).undo_actions(), inv@)
                && self.redo_actions() == old(self).redo_actions()
            &&& direction == ApplyDirection::Backward ==> self.redo_actions() == pushed(old(self).redo_actions(), inv@)
                && self.undo_actions() == old(self).undo_actions()
        });
        Ok(LayerEffect::InvalidateSubjects)
    }

    fn remove_subject(&mut self, id: SubjectId, direction: ApplyDirection) -> (r: Result<LayerEffect, StoreError>)
        requires
            old(self).wf(),
        ensures
            final(self).wf(),
            performed(*old(self), *final(self), ActionView::RemoveSubject(id), direction, r),
    {
        let subject = match self.store.get_subject(id) {
            Ok(s) => s,
            Err(e) => {
                return Err(e);
            },
        };
        proof {
            reveal(crate::store::subject_data);
        }
        let notes = self.store.notes_of_subject(id);
        match self.store.delete_subject(id) {
            Ok(()) => {},
            Err(e) => {
                return Err(e);
            },
        }
        self.clear_caches();
        let inv = LayerAction::RestoreSubject {
            subject: id,
            name: subject.name.clone(),
            parent: subject.parent_id,
            notes,
        };
        self.add_backwards(inv, direction);
        self.last_added_subject = Some(subject);
        assert({
            &&& acted(old(self).store_view(), self.store_view(), ActionView::RemoveSubject(id), direction, inv@)
            &&& direction == ApplyDirection::Forward ==> self.undo_actions() == pushed(old(self).undo_actions(), inv@)
                && self.redo_actions() == old(self).redo_actions()
            &&& direction == ApplyDirection::Backward ==> self.redo_actions() == pushed(old(self).redo_actions(), inv@)
                && self.undo_actions() == old(self).undo_actions()
        });
        Ok(LayerEffect::InvalidateSubjects)
    }

    fn set_subject_parent(&mut self, subject: SubjectId, parent: Option<SubjectId>, direction: ApplyDirection) -> (r: Result<LayerEffect, StoreError>)
        requires
            old(self).wf(),
        ensures
            final(self).wf(),
            performed(*old(self), *final(self), ActionView::SetSubjectParent { subject, parent }, direction, r),
    {
        let current = match self.store.get_subject(subject) {
            Ok(s) => s,
            Err(e) => {
                return Err(e);
            },
        };
        proof {
            reveal(crate::store::subject_data);
        }
        match self.store.set_subject_parent(subject, parent) {
            Ok(()) => {},
            Err(e) => {
                return Err(e);
            },
        }
        self.clear_caches();
        let inv = LayerAction::SetSubjectParent { subject, parent: current.parent_id };
        self.add_backwards(inv, direction);
        assert({
            &&& acted(old(self).store_view(), self.store_view(), ActionView::SetSubjectParent { subject, parent }, direction, inv@)
            &&& direction == ApplyDirection::Forward ==> self.undo_actions() == pushed(old(self).undo_actions(), inv@)
                && self.redo_actions() == old(self).redo_actions()
            &&& direction == ApplyDirection::Backward ==> self.redo_actions() == pushed(old(self).redo_actions(), inv@)
                && self.undo_actions() == old(self).undo_actions()
        });
        Ok(LayerEffect::InvalidateSubjects)
    }

    fn restore_subject(
        &mut self,
        subject: SubjectId,
        name: String,
        parent: Option<SubjectId>,
        notes: Vec<NoteId>,
        direction: ApplyDirection,
    ) -> (r: Result<LayerEffect, StoreError>)
        requires
            old(self).wf(),
        ensures
            final(self).wf(),
            performed(
                *old(self),
                *final(self),
                ActionView::RestoreSubject { subject, name: name@, parent, notes: notes@ },
                direction,
                r,
            ),
    {
        match self.store.restore_subject(subject, name.as_str(), parent, &notes) {
            Ok(()) => {},
            Err(e) => {
                return Err(e);
            },
        }
        self.clear_caches();
        let inv = LayerAction::RemoveSubject(subject);
        self.add_backwards(inv, direction);
        assert({
            &&& acted(
                old(self).store_view(),
                self.store_view(),
                ActionView::RestoreSubject { subject, name: name@, parent, notes: notes@ },
                direction,
                inv@,
            )
            &&& direction == ApplyDirection::Forward ==> self.undo_actions() == pushed(old(self).undo_actions(), inv@)
                && self.redo_actions() == old(self).redo_actions()
            &&& direction == ApplyDirection::Backward ==> self.redo_actions() == pushed(old(self).redo_actions(), inv@)
                && self.undo_actions() == old(self).undo_actions()
        });
        Ok(LayerEffect::InvalidateSubjects)
    }

    /// Performs an action in a direction: the store changes, the inverse is
    /// recorded, and the caches drop what the action invalidates.
    pub fn perform_direction(&mut self, action: LayerAction, direction: ApplyDirection) -> (r: Result<LayerEffect, StoreError>)
        requires
            old(self).wf(),
        ensures
            final(self).wf(),
            performed(*old(self), *final(self), action@, direction, r),
    {
        match action {
            LayerAction::CreateNote(builder) => self.create_note(builder, direction),
            LayerAction::DeleteNote(id) => self.delete_note_by_id(id, direction),
            LayerAction::EditNote(id, builder) => self.edit_note_with(id, builder, direction),
            LayerAction::AddSubject(id, name) => self.add_subject(id, name, direction),
            LayerAction::RemoveSubject(id) => self.remove_subject(id, direction),
            LayerAction::SetSubjectParent { subject, parent } => self.set_subject_parent(
                subject,
                parent,
                direction,
            ),
            LayerAction::RestoreSubject { subject, name, parent, notes } => self.restore_subject(
                subject,
                name,
                parent,
                notes,
                direction,
            ),
        }
    }

    /// Performs a new action: on success the redo queue is emptied and the
    /// inverse goes on the undo queue; on failure nothing changes.
    pub fn perform(&mut self, action: LayerAction) -> (r: Result<LayerEffect, StoreError>)
        requires
            old(self).wf(),
        ensures
            final(self).wf(),
            r is Err ==> final(self).store_view() == old(self).store_view() && final(self).undo_actions()
                == old(self).undo_actions() && final(self).redo_actions() == old(self).redo_actions(),
            outcome(old(self).store_view(), action@, r),
            caches_after(*old(self), *final(self), r),
            r is Ok ==> r->Ok_0 == effect_of(action@) && final(self).redo_actions().len() == 0
                && exists|inv: ActionView|
                {
                    &&& acted(old(self).store_view(), final(self).store_view(), action@, ApplyDirection::Forward, inv)
                    &&& final(self).undo_actions() == pushed(old(self).undo_actions(), inv)
                },
    {
        let r = self.perform_direction(action, ApplyDirection::Forward);
        if r.is_ok() {
            self.redo_queue = VecDeque::new();
        }
        r
    }

    /// Undoes the latest action: performs its recorded inverse backward, which
    /// records the inverse of that on the redo queue. `None` when there is
    /// nothing to undo; on failure nothing changes.
    pub fn undo(&mut self) -> (r: Result<Option<LayerEffect>, StoreError>)
        requires
            old(self).wf(),
        ensures
            final(self).wf(),
            old(self).undo_actions().len() == 0 ==> r == Ok::<Option<LayerEffect>, StoreError>(None)
                && final(self).store_view() == old(self).store_view() && final(self).undo_actions()
                == old(self).undo_actions() && final(self).redo_actions() == old(self).redo_actions(),
            r is Err ==> final(self).store_view() == old(self).store_view() && final(self).undo_actions()
                == old(self).undo_actions() && final(self).redo_actions() == old(self).redo_actions(),
            old(self).undo_actions().len() > 0 ==> r != Ok::<Option<LayerEffect>, StoreError>(None)
                && outcome(old(self).store_view(), old(self).undo_actions().last(), as_effect(r))
                && caches_after(*old(self), *final(self), as_effect(r)),
            old(self).undo_actions().len() > 0 && r is Ok ==> r->Ok_0 == Some(effect_of(old(self).undo_actions().last()))
                && final(self).undo_actions() == old(self).undo_actions().drop_last() && exists|inv: ActionView|
                {
                    &&& acted(old(self).store_view(), final(self).store_view(), old(self).undo_actions().last(), ApplyDirection::Backward, inv)
                    &&& final(self).redo_actions() == pushed(old(self).redo_actions(), inv)
                },
    {
        let ghost before = *self;
        let action = match self.undo_queue.pop_back() {
            Some(a) => a,
            None => {
                return Ok(None);
            },
        };
        proof {
            assert(self.undo_queue@ == before.undo_queue@.drop_last());
            assert(action == before.undo_queue@.last());
            assert(self.undo_actions() =~= before.undo_actions().drop_last());
            assert(before.undo_actions().last() == action@);
            assert(self.store_view() == before.store_view());
            assert(self.redo_actions() == before.redo_actions());
        }
        let ghost popped = *self;
        let keep = action.duplicate();
        let r = self.perform_direction(action, ApplyDirection::Backward);
        match r {
            Ok(e) => {
                proof {
                    let inv = choose|inv: ActionView|
                        {
                            &&& acted(popped.store_view(), self.store_view(), keep@, ApplyDirection::Backward, inv)
                            &&& self.redo_actions() == pushed(popped.redo_actions(), inv)
                                && self.undo_actions() == popped.undo_actions()
                        };
                    assert(acted(before.store_view(), self.store_view(), before.undo_actions().last(), ApplyDirection::Backward, inv));
                }
                Ok(Some(e))
            },
            Err(e) => {
                let ghost mid = self.undo_actions();
                self.undo_queue.push_back(keep);
                assert(self.undo_actions() =~= mid.push(keep@));
                assert(self.undo_actions() =~= before.undo_actions());
                Err(e)
            },
        }
    }

    /// Redoes the latest undone action, recording its inverse on the undo
    /// queue. `None` when there is nothing to redo; on failure nothing changes.
    pub fn redo(&mut self) -> (r: Result<Option<LayerEffect>, StoreError>)
        requires
            old(self).wf(),
        ensures
            final(self).wf(),
            old(self).redo_actions().len() == 0 ==> r == Ok::<Option<LayerEffect>, StoreError>(None)
                && final(self).store_view() == old(self).store_view() && final(self).undo_actions()
                == old(self).undo_actions() && final(self).redo_actions() == old(self).redo_actions(),
            r is Err ==> final(self).store_view() == old(self).store_view() && final(self).undo_actions()
                == old(self).undo_actions() && final(self).redo_actions() == old(self).redo_actions(),
            old(self).redo_actions().len() > 0 ==> r != Ok::<Option<LayerEffect>, StoreError>(None)
                && outcome(old(self).store_view(), old(self).redo_actions().last(), as_effect(r))
                && caches_after(*old(self), *final(self), as_effect(r)),
            old(self).redo_actions().len() > 0 && r is Ok ==> r->Ok_0 == Some(effect_of(old(self).redo_actions().last()))
                && final(self).redo_actions() == old(self).redo_actions().drop_last() && exists|inv: ActionView|
                {
                    &&& acted(old(self).store_view(), final(self).store_view(), old(self).redo_actions().last(), ApplyDirection::Forward, inv)
                    &&& final(self).undo_actions() == pushed(old(self).undo_actions(), inv)
                },
    {
        let ghost before = *self;
        let action = match self.redo_queue.pop_back() {
            Some(a) => a,
            None => {
                return Ok(None);
            },
        };
        proof {
            assert(self.redo_queue@ == before.redo_queue@.drop_last());
            assert(action == before.redo_queue@.last());
            assert(self.redo_actions() =~= before.redo_actions().drop_last());
            assert(before.redo_actions().last() == action@);
            assert(self.store_view() == before.store_view());
            assert(self.undo_actions() == before.undo_actions());
        }
        let ghost popped = *self;
        let keep = action.duplicate();
        let r = self.perform_direction(action, ApplyDirection::Forward);
        match r {
            Ok(e) => {
                proof {
                    let inv = choose|inv: ActionView|
                        {
                            &&& acted(popped.store_view(), self.store_view(), keep@, ApplyDirection::Forward, inv)
                            &&& self.undo_actions() == pushed(popped.undo_actions(), inv)
                                && self.redo_actions() == popped.redo_actions()
                        };
                    assert(acted(before.store_view(), self.store_view(), before.redo_actions().last(), ApplyDirection::Forward, inv));
                }
                Ok(Some(e))
            },
            Err(e) => {
                let ghost mid = self.redo_actions();
                self.redo_queue.push_back(keep);
                assert(self.redo_actions() =~= mid.push(keep@));
                assert(self.redo_actions() =~= before.redo_actions());
                Err(e)
            },
        }
    }

    /// The identifiers of the notes that a search looks for, from the cache
    /// when it holds them, else from the store (and then cached).
    pub fn get_note_ids_for_search(&mut self, search: NoteSearch) -> (r: Result<Vec<NoteId>, StoreError>)
        requires
            old(self).wf(),
        ensures
            final(self).wf(),
            final(self).store_view() == old(self).store_view(),
            final(self).undo_actions() == old(self).undo_actions(),
            final(self).redo_actions() == old(self).redo_actions(),
            r is Ok,
            is_listing(final(self).store_view(), search, r->Ok_0@, PAGE_SIZE as int),
    {
        let ghost before = self.query_cache@;
        match self.query_cache.get(&search) {
            Some(ids) => {
                proof {
                    let p = key_pos(before, search);
                    let q = self.query_cache@;
                    assert(is_listing(self.store@, before[p].0, before[p].1, PAGE_SIZE as int));
                    assert forall|i: int| 0 <= i < q.len() implies is_listing(self.store@, #[trigger] q[i].0, q[i].1, PAGE_SIZE as int) by {
                        let i0 = if i < q.len() - 1 { if i >= p { i + 1 } else { i } } else { p };
                        assert(q[i] == before[i0]);
                    }
                }
                Ok(ids)
            },
            None => {
                let ids = match self.store.find_notes(search) {
                    Ok(ids) => ids,
                    Err(e) => {
                        return Err(e);
                    },
                };
                let copy = ids.clone();
                assert(copy@ == ids@);
                self.query_cache.insert(search, copy);
                proof {
                    let q = self.query_cache@;
                    assert forall|i: int| 0 <= i < q.len() implies is_listing(self.store@, #[trigger] q[i].0, q[i].1, PAGE_SIZE as int) by {
                        if i < q.len() - 1 {
                            if before.len() >= self.query_cache.capacity() && before.len() > 0 {
                                assert(q[i] == before[i + 1]);
                            } else {
                                assert(q[i] == before[i]);
                            }
                        }
                    }
                }
                Ok(ids)
            },
        }
    }

    /// The note with this identifier, from the cache when it holds it, else
    /// from the store (and then cached); `NotFound` when it is not stored.
    pub fn get_note_by_id(&mut self, id: NoteId) -> (r: Result<NoteData, StoreError>)
        requires
            old(self).wf(),
        ensures
            final(self).wf(),
            final(self).store_view() == old(self).store_view(),
            final(self).undo_actions() == old(self).undo_actions(),
            final(self).redo_actions() == old(self).redo_actions(),
            has_note(final(self).store_view(), id) ==> r is Ok && note_data(final(self).store_view(), id, r->Ok_0@),
            !has_note(final(self).store_view(), id) ==> r == Err::<NoteData, StoreError>(StoreError::NotFound),
    {
        let ghost before = self.note_cache@;
        match self.note_cache.get(&id) {
            Some(n) => {
                proof {
                    let p = key_pos(before, id);
                    let q = self.note_cache@;
                    assert(has_note(self.store@, before[p].0) && note_data(self.store@, before[p].0, before[p].1));
                    assert forall|i: int| 0 <= i < q.len() implies has_note(self.store@, #[trigger] q[i].0)
                        && note_data(self.store@, q[i].0, q[i].1) by {
                        let i0 = if i < q.len() - 1 { if i >= p { i + 1 } else { i } } else { p };
                        assert(q[i] == before[i0]);
                    }
                }
                Ok(n)
            },
            None => {
                let n = match self.store.get_note(id) {
                    Ok(n) => n,
                    Err(e) => {
                        return Err(e);
                    },
                };
                let copy = n.duplicate();
                self.note_cache.insert(id, copy);
                proof {
                    let q = self.note_cache@;
                    assert forall|i: int| 0 <= i < q.len() implies has_note(self.store@, #[trigger] q[i].0)
                        && note_data(self.store@, q[i].0, q[i].1) by {
                        if i < q.len() - 1 {
                            if before.len() >= self.note_cache.capacity() && before.len() > 0 {
                                assert(q[i] == before[i + 1]);
                            } else {
                                assert(q[i] == before[i]);
                            }
                        }
                    }
                }
                Ok(n)
            },
        }
    }

    /// Every subject with its children, ordered by name, then by identifier.
    pub fn get_subjects(&self) -> (r: Result<Vec<SubjectData>, StoreError>)
        requires
            self.wf(),
        ensures
            r is Ok,
            r->Ok_0@.len() == self.store_view().subjects.len(),
            forall|k: int| 0 <= k < r->Ok_0@.len() ==> has_subject(self.store_view(), #[trigger] r->Ok_0@[k].id)
                && subject_data(self.store_view(), r->Ok_0@[k].id, r->Ok_0@[k]@),
            forall|i: int|
                0 <= i < self.store_view().subjects.len() ==> lists_subject(r->Ok_0@, #[trigger] self.store_view().subjects[i].id),
            forall|k: int|
                0 <= k < r->Ok_0@.len() - 1 ==> !subject_before(r->Ok_0@[k + 1]@, #[trigger] r->Ok_0@[k]@),
    {
        self.store.get_subjects()
    }
}

} // verus!
