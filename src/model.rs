//! The values that the store holds and hands out: identifiers, task states,
//! notes, subjects, note builders and search descriptors.

use vstd::prelude::*;

use crate::clock::{now, random_id};

verus! {

/// Nanoseconds since the Unix epoch.
pub type Timestamp = i64;

/// Identifier of a note, stable for the note's lifetime.
#[derive(Debug, Clone, Copy, PartialEq, Eq, Structural, PartialOrd, Ord, Hash)]
pub struct NoteId(pub u128);

/// Identifier of a subject. The nil identifier (zero) stands for "no subject".
#[derive(Debug, Clone, Copy, PartialEq, Eq, Structural, PartialOrd, Ord, Hash)]
pub struct SubjectId(pub u128);

/// The identifier that marks a note without subjects in the association table.
pub const NIL_SUBJECT: u128 = 0;

/// Whether a note is a task, and whether it is done.
#[derive(Debug, Clone, Copy, PartialEq, Eq, Structural, PartialOrd, Ord, Hash)]
pub enum TaskState {
    NotATask,
    Todo,
    Done,
}

impl TaskState {
    /// The stored number of a task state.
    pub open spec fn rank(self) -> int {
        match self {
            TaskState::NotATask => 0,
            TaskState::Todo => 1,
            TaskState::Done => 2,
        }
    }

    /// The stored number of a task state: 0, 1 or 2.
    pub fn to_db_value(self) -> (r: i64)
        ensures
            r == self.rank(),
    {
        match self {
            TaskState::NotATask => 0,
            TaskState::Todo => 1,
            TaskState::Done => 2,
        }
    }

    /// The task state of a stored number.
    pub fn from_db_value(value: i64) -> (r: TaskState)
        requires
            0 <= value <= 2,
        ensures
            r.rank() == value,
    {
        if value == 0 {
            TaskState::NotATask
        } else if value == 1 {
            TaskState::Todo
        } else {
            TaskState::Done
        }
    }
}

/// A note as the store hands it out.
#[derive(Debug, Clone, PartialEq, Eq, Hash)]
pub struct NoteData {
    pub rowid: i64,
    pub id: NoteId,
    pub text: String,
    pub subjects: Vec<SubjectId>,
    pub task_state: TaskState,
    pub created_at: Timestamp,
    pub modified_at: Timestamp,
    pub done_at: Option<Timestamp>,
}

/// The mathematical value of a note.
pub struct NoteView {
    pub rowid: i64,
    pub id: NoteId,
    pub text: Seq<char>,
    pub subjects: Seq<SubjectId>,
    pub task_state: TaskState,
    pub created_at: Timestamp,
    pub modified_at: Timestamp,
    pub done_at: Option<Timestamp>,
}

impl View for NoteData {
    type V = NoteView;

    open spec fn view(&self) -> NoteView {
        NoteView {
            rowid: self.rowid,
            id: self.id,
            text: self.text@,
            subjects: self.subjects@,
            task_state: self.task_state,
            created_at: self.created_at,
            modified_at: self.modified_at,
            done_at: self.done_at,
        }
    }
}

/// Notes are handed out by value.
pub type Note = NoteData;

impl NoteData {
    /// A copy of the note.
    pub fn duplicate(&self) -> (r: NoteData)
        ensures
            r@ == self@,
    {
        NoteData {
            rowid: self.rowid,
            id: self.id,
            text: self.text.clone(),
            subjects: self.subjects.clone(),
            task_state: self.task_state,
            created_at: self.created_at,
            modified_at: self.modified_at,
            done_at: self.done_at,
        }
    }

    /// The note as a value to hand around.
    pub fn to_note(self) -> (r: Note)
        ensures
            r@ == self@,
    {
        self
    }

    /// A builder that sets every field of the note.
    pub fn to_builder(&self) -> (r: NoteBuilder)
        ensures
            r@ == (BuilderView {
                rowid: Some(self.rowid),
                id: Some(self.id),
                text: Some(self.text@),
                subjects: Some(self.subjects@),
                task_state: Some(self.task_state),
                created_at: Some(self.created_at),
                modified_at: Some(self.modified_at),
                done_at: Some(self.done_at),
            }),
    {
        NoteBuilder {
            rowid: Some(self.rowid),
            id: Some(self.id),
            text: Some(self.text.clone()),
            subjects: Some(self.subjects.clone()),
            task_state: Some(self.task_state),
            created_at: Some(self.created_at),
            modified_at: Some(self.modified_at),
            done_at: Some(self.done_at),
        }
    }
}

/// A partial note: the fields set are applied over a note or over defaults.
#[derive(Debug, Default, Clone, PartialEq, Eq, Hash)]
pub struct NoteBuilder {
    pub rowid: Option<i64>,
    pub id: Option<NoteId>,
    pub text: Option<String>,
    pub subjects: Option<Vec<SubjectId>>,
    pub task_state: Option<TaskState>,
    pub created_at: Option<Timestamp>,
    pub modified_at: Option<Timestamp>,
    pub done_at: Option<Option<Timestamp>>,
}

/// The mathematical value of a note builder.
pub struct BuilderView {
    pub rowid: Option<i64>,
    pub id: Option<NoteId>,
    pub text: Option<Seq<char>>,
    pub subjects: Option<Seq<SubjectId>>,
    pub task_state: Option<TaskState>,
    pub created_at: Option<Timestamp>,
    pub modified_at: Option<Timestamp>,
    pub done_at: Option<Option<Timestamp>>,
}

impl View for NoteBuilder {
    type V = BuilderView;

    open spec fn view(&self) -> BuilderView {
        BuilderView {
            rowid: self.rowid,
            id: self.id,
            text: match self.text {
                Some(t) => Some(t@),
                None => None,
            },
            subjects: match self.subjects {
                Some(s) => Some(s@),
                None => None,
            },
            task_state: self.task_state,
            created_at: self.created_at,
            modified_at: self.modified_at,
            done_at: self.done_at,
        }
    }
}

/// The value of a field: the builder's when set, else the other.
pub open spec fn or_else<T>(o: Option<T>, d: T) -> T {
    match o {
        Some(v) => v,
        None => d,
    }
}

/// A note with the fields that a builder sets replaced.
pub open spec fn applied(b: BuilderView, n: NoteView) -> NoteView {
    NoteView {
        rowid: or_else(b.rowid, n.rowid),
        id: or_else(b.id, n.id),
        text: or_else(b.text, n.text),
        subjects: or_else(b.subjects, n.subjects),
        task_state: or_else(b.task_state, n.task_state),
        created_at: or_else(b.created_at, n.created_at),
        modified_at: or_else(b.modified_at, n.modified_at),
        done_at: or_else(b.done_at, n.done_at),
    }
}

/// The note that a builder makes over defaults: row number 0, the given
/// identifier, empty text, no subjects, not a task, created and modified at
/// `now`, not done.
pub open spec fn built(b: BuilderView, id: NoteId, now: Timestamp) -> NoteView {
    applied(
        b,
        NoteView {
            rowid: 0,
            id,
            text: Seq::empty(),
            subjects: Seq::empty(),
            task_state: TaskState::NotATask,
            created_at: now,
            modified_at: now,
            done_at: None,
        },
    )
}

impl NoteBuilder {
    /// A builder that sets nothing.
    pub fn new() -> (r: NoteBuilder)
        ensures
            r@ == (BuilderView {
                rowid: None,
                id: None,
                text: None,
                subjects: None,
                task_state: None,
                created_at: None,
                modified_at: None,
                done_at: None,
            }),
    {
        NoteBuilder {
            rowid: None,
            id: None,
            text: None,
            subjects: None,
            task_state: None,
            created_at: None,
            modified_at: None,
            done_at: None,
        }
    }

    /// A copy of the builder.
    pub fn duplicate(&self) -> (r: NoteBuilder)
        ensures
            r@ == self@,
    {
        NoteBuilder {
            rowid: self.rowid,
            id: self.id,
            text: match &self.text {
                Some(t) => Some(t.clone()),
                None => None,
            },
            subjects: match &self.subjects {
                Some(v) => Some(v.clone()),
                None => None,
            },
            task_state: self.task_state,
            created_at: self.created_at,
            modified_at: self.modified_at,
            done_at: self.done_at,
        }
    }

    /// Sets the identifier.
    pub fn with_id(self, id: NoteId) -> (r: NoteBuilder)
        ensures
            r@ == (BuilderView { id: Some(id), ..self@ }),
    {
        NoteBuilder { id: Some(id), ..self }
    }

    /// Sets the text.
    pub fn text(self, text: &str) -> (r: NoteBuilder)
        ensures
            r@ == (BuilderView { text: Some(text@), ..self@ }),
    {
        NoteBuilder { text: Some(text.to_owned()), ..self }
    }

    /// Adds one subject after those already set.
    pub fn subject(self, subject: SubjectId) -> (r: NoteBuilder)
        ensures
            r@ == (BuilderView {
                subjects: Some(or_else(self@.subjects, Seq::empty()).push(subject)),
                ..self@
            }),
    {
        let mut s = match self.subjects {
            Some(v) => v,
            None => Vec::new(),
        };
        s.push(subject);
        NoteBuilder { subjects: Some(s), ..self }
    }

    /// Adds subjects after those already set.
    pub fn subjects(self, subjects: Vec<SubjectId>) -> (r: NoteBuilder)
        ensures
            r@ == (BuilderView {
                subjects: Some(or_else(self@.subjects, Seq::empty()) + subjects@),
                ..self@
            }),
    {
        let mut s = match self.subjects {
            Some(v) => v,
            None => Vec::new(),
        };
        let mut more = subjects;
        s.append(&mut more);
        NoteBuilder { subjects: Some(s), ..self }
    }

    /// Sets the task state.
    pub fn task_state(self, task_state: TaskState) -> (r: NoteBuilder)
        ensures
            r@ == (BuilderView { task_state: Some(task_state), ..self@ }),
    {
        NoteBuilder { task_state: Some(task_state), ..self }
    }

    /// Sets the creation time.
    pub fn created_at(self, time: Timestamp) -> (r: NoteBuilder)
        ensures
            r@ == (BuilderView { created_at: Some(time), ..self@ }),
    {
        NoteBuilder { created_at: Some(time), ..self }
    }

    /// Sets the modification time.
    pub fn modified_at(self, time: Timestamp) -> (r: NoteBuilder)
        ensures
            r@ == (BuilderView { modified_at: Some(time), ..self@ }),
    {
        NoteBuilder { modified_at: Some(time), ..self }
    }

    /// Sets the completion time, or that there is none.
    pub fn done_at(self, time: Option<Timestamp>) -> (r: NoteBuilder)
        ensures
            r@ == (BuilderView { done_at: Some(time), ..self@ }),
    {
        NoteBuilder { done_at: Some(time), ..self }
    }

    /// Sets the modification time to the current time.
    pub fn modified_now(self) -> (r: NoteBuilder)
        ensures
            r@.modified_at is Some,
            r@ == (BuilderView { modified_at: r@.modified_at, ..self@ }),
    {
        let t = now();
        self.modified_at(t)
    }

    /// Sets a fresh random identifier.
    pub fn decide_id(self) -> (r: NoteBuilder)
        ensures
            r@.id is Some,
            (r@.id->0).0 != NIL_SUBJECT,
            r@ == (BuilderView { id: r@.id, ..self@ }),
    {
        let id = random_id();
        self.with_id(NoteId(id))
    }

    /// The identifier set.
    pub fn id(&self) -> (r: NoteId)
        requires
            self@.id is Some,
        ensures
            r == self@.id->0,
    {
        match self.id {
            Some(id) => id,
            None => NoteId(0),
        }
    }

    /// Replaces the fields of a note that this builder sets.
    pub fn apply_to_note_inplace(self, note: &mut NoteData)
        ensures
            final(note)@ == applied(self@, old(note)@),
    {
        note.rowid = match self.rowid {
            Some(v) => v,
            None => note.rowid,
        };
        note.id = match self.id {
            Some(v) => v,
            None => note.id,
        };
        match self.text {
            Some(t) => {
                note.text = t;
            },
            None => {},
        }
        match self.subjects {
            Some(s) => {
                note.subjects = s;
            },
            None => {},
        }
        note.task_state = match self.task_state {
            Some(v) => v,
            None => note.task_state,
        };
        note.created_at = match self.created_at {
            Some(v) => v,
            None => note.created_at,
        };
        note.modified_at = match self.modified_at {
            Some(v) => v,
            None => note.modified_at,
        };
        note.done_at = match self.done_at {
            Some(v) => v,
            None => note.done_at,
        };
    }

    /// A copy of a note with the fields that this builder sets replaced.
    pub fn apply_to_note(self, note: &NoteData) -> (r: NoteData)
        ensures
            r@ == applied(self@, note@),
    {
        let mut n = note.duplicate();
        self.apply_to_note_inplace(&mut n);
        n
    }

    /// The note that this builder makes over defaults, with a fresh random
    /// identifier when none is set and the current time for unset times.
    pub fn build(self) -> (r: NoteData)
        ensures
            exists|id: NoteId, t: Timestamp| r@ == built(self@, id, t),
            self@.id is None ==> r@.id.0 != NIL_SUBJECT,
            self@.created_at is None && self@.modified_at is None ==> r@.created_at
                == r@.modified_at,
    {
        let t = now();
        let id = match self.id {
            Some(id) => id,
            None => NoteId(random_id()),
        };
        let base = NoteData {
            rowid: 0,
            id,
            text: String::new(),
            subjects: Vec::new(),
            task_state: TaskState::NotATask,
            created_at: t,
            modified_at: t,
            done_at: None,
        };
        let r = self.apply_to_note(&base);
        assert(r@ == built(self@, id, t));
        r
    }
}

impl NoteData {
    /// A copy of the note with the fields that `changes` sets replaced.
    pub fn modify_with(&self, changes: NoteBuilder) -> (r: NoteData)
        ensures
            r@ == applied(changes@, self@),
    {
        changes.apply_to_note(self)
    }
}

/// What `find_notes` looks for: notes under a subject, tasks only, or both.
#[derive(Debug, Clone, Copy, PartialEq, Eq, Structural, Hash, PartialOrd, Ord)]
pub struct NoteSearch {
    pub subject_id: Option<SubjectId>,
    pub task_only: bool,
}

impl NoteSearch {
    /// All notes.
    pub fn new() -> (r: NoteSearch)
        ensures
            r == (NoteSearch { subject_id: None, task_only: false }),
    {
        NoteSearch { subject_id: None, task_only: false }
    }

    /// The same search under one subject.
    pub fn subject(self, subject_id: SubjectId) -> (r: NoteSearch)
        ensures
            r == (NoteSearch { subject_id: Some(subject_id), ..self }),
    {
        NoteSearch { subject_id: Some(subject_id), ..self }
    }

    /// The same search under a subject, or under none.
    pub fn subject_opt(self, subject_id: Option<SubjectId>) -> (r: NoteSearch)
        ensures
            r == (NoteSearch { subject_id, ..self }),
    {
        NoteSearch { subject_id, ..self }
    }

    /// The same search, for tasks only or not.
    pub fn task_only(self, task_only: bool) -> (r: NoteSearch)
        ensures
            r == (NoteSearch { task_only, ..self }),
    {
        NoteSearch { task_only, ..self }
    }
}

/// A subject as the store hands it out, with the identifiers of its children.
#[derive(Debug, Clone, PartialEq, Eq, Hash)]
pub struct SubjectData {
    pub id: SubjectId,
    pub name: String,
    pub parent_id: Option<SubjectId>,
    pub children: Vec<SubjectId>,
}

/// The mathematical value of a subject.
pub struct SubjectView {
    pub id: SubjectId,
    pub name: Seq<char>,
    pub parent_id: Option<SubjectId>,
    pub children: Seq<SubjectId>,
}

impl View for SubjectData {
    type V = SubjectView;

    open spec fn view(&self) -> SubjectView {
        SubjectView {
            id: self.id,
            name: self.name@,
            parent_id: self.parent_id,
            children: self.children@,
        }
    }
}

/// Subjects are handed out by value.
pub type Subject = SubjectData;

/// Why a store operation failed.
#[derive(Debug, Clone, Copy, PartialEq, Eq, Structural)]
pub enum StoreError {
    /// No note or subject has the identifier given.
    NotFound,
    /// A subject of that name already exists under the same parent.
    Conflict,
    /// A uniqueness rule of the stored tables would be broken, or row numbers ran out.
    StorageFailure,
}

} // verus!
