//! Properties that relate several operations of the store.

use vstd::prelude::*;

use crate::layer::{acted, builder_of, edit_builder, ActionView, ApplyDirection};
use crate::model::{
    applied, built, or_else, BuilderView, NoteId, NoteSearch, NoteView, SubjectId, TaskState, Timestamp,
    NIL_SUBJECT,
};
use crate::text::{normal_text, terms_of};
use crate::store::{
    can_insert, deleted, has_note, inserted, is_listing, kept, link_stays, links_for, mirror,
    note_data, note_pos, or_nil, restored, row_stays, subject_notes, subject_pos, tables_wf, SearchRow,
    StoreView,
};

verus! {

/// Round trip: the note that the store hands out under the identifier of a
/// note that `add_note` made from builder `b` has every field that `b` sets,
/// and the defaults for the others (empty text, not a task, not done, the
/// time of the call, a fresh identifier); its subjects are the subjects that
/// `b` sets, the nil subject left out.
pub proof fn lemma_round_trip(v: StoreView, b: crate::model::BuilderView, id: NoteId, t: Timestamp, x: NoteView)
    requires
        tables_wf(v),
        can_insert(v, built(b, id, t)),
        note_data(inserted(v, built(b, id, t)), built(b, id, t).id, x),
    ensures
        x.id == or_else(b.id, id),
        x.text == or_else(b.text, Seq::empty()),
        x.task_state == or_else(b.task_state, TaskState::NotATask),
        x.created_at == or_else(b.created_at, t),
        x.modified_at == or_else(b.modified_at, t),
        x.done_at == or_else(b.done_at, None),
        x.rowid == v.next_rowid,
        forall|s: SubjectId|
            #![trigger x.subjects.contains(s)]
            x.subjects.contains(s) <==> (s.0 != NIL_SUBJECT && or_else(b.subjects, Seq::empty()).contains(s)),
{
    let n = built(b, id, t);
    let w = inserted(v, n);
    let last = v.notes.len() as int;
    assert(w.notes[last].id == n.id);
    let p = note_pos(w.notes, n.id);
    if p != last {
        assert(v.notes[p].id == n.id);
        assert(has_note(v, n.id));
    }
    let ls = links_for(n.id, or_nil(n.subjects));
    assert forall|s: SubjectId| s.0 != NIL_SUBJECT implies (w.links.contains((n.id, s)) <==> n.subjects.contains(s)) by {
        if w.links.contains((n.id, s)) {
            let k = choose|k: int| 0 <= k < w.links.len() && w.links[k] == (n.id, s);
            if k < v.links.len() {
                assert(v.links[k].0 == n.id);
                assert(has_note(v, v.links[k].0));
            } else {
                assert(ls[k - v.links.len()] == (n.id, s));
                assert(or_nil(n.subjects)[k - v.links.len()] == s);
                if n.subjects.len() == 0 {
                    assert(s == SubjectId(NIL_SUBJECT));
                } else {
                    assert(n.subjects[k - v.links.len()] == s);
                }
            }
        }
        if n.subjects.contains(s) {
            let k = choose|k: int| 0 <= k < n.subjects.len() && n.subjects[k] == s;
            assert(or_nil(n.subjects) == n.subjects);
            assert(w.links[v.links.len() + k] == (n.id, s));
        }
    }
}

/// Deletion: once a note is deleted no note with its identifier is stored,
/// so looking it up fails with `NotFound`, and no listing of any search
/// holds it.
pub proof fn lemma_deleted_gone(v: StoreView, id: NoteId)
    requires
        tables_wf(v),
        has_note(v, id),
    ensures
        !has_note(deleted(v, id), id),
        forall|q: NoteSearch, r: Seq<NoteId>, limit: int|
            is_listing(deleted(v, id), q, r, limit) ==> !r.contains(id),
{
    let w = deleted(v, id);
    let p = note_pos(v.notes, id);
    if has_note(w, id) {
        let i = choose|i: int| 0 <= i < w.notes.len() && w.notes[i].id == id;
        let i0 = if i < p { i } else { i + 1 };
        assert(w.notes[i] == v.notes[i0]);
        if i0 < p {
            assert(v.notes[i0].id != v.notes[p].id);
        } else {
            assert(v.notes[p].id != v.notes[i0].id);
        }
    }
    assert forall|q: NoteSearch, r: Seq<NoteId>, limit: int|
        is_listing(w, q, r, limit) implies !r.contains(id) by {
        if r.contains(id) {
            let k = choose|k: int| 0 <= k < r.len() && r[k] == id;
            assert(has_note(w, r[k]));
        }
    }
}


proof fn lemma_kept_append<T>(a: Seq<T>, b: Seq<T>, p: spec_fn(T) -> bool)
    ensures
        kept(a + b, p) == kept(a, p) + kept(b, p),
    decreases b.len(),
{
    if b.len() == 0 {
        assert(a + b =~= a);
        assert(kept(a, p) + kept(b, p) =~= kept(a, p));
    } else {
        lemma_kept_append(a, b.drop_last(), p);
        assert((a + b).drop_last() =~= a + b.drop_last());
        assert((a + b).last() == b.last());
        if p(b.last()) {
            assert(kept(a, p) + kept(b, p) =~= (kept(a, p) + kept(b.drop_last(), p)).push(b.last()));
        } else {
            assert(kept(a, p) + kept(b, p) =~= kept(a, p) + kept(b.drop_last(), p));
        }
    }
}

proof fn lemma_kept_all<T>(a: Seq<T>, p: spec_fn(T) -> bool)
    requires
        forall|i: int| 0 <= i < a.len() ==> p(#[trigger] a[i]),
    ensures
        kept(a, p) == a,
    decreases a.len(),
{
    if a.len() > 0 {
        lemma_kept_all(a.drop_last(), p);
        assert(p(a[a.len() - 1]));
        assert(a.drop_last().push(a.last()) =~= a);
    }
}

proof fn lemma_kept_none<T>(a: Seq<T>, p: spec_fn(T) -> bool)
    requires
        forall|i: int| 0 <= i < a.len() ==> !p(#[trigger] a[i]),
    ensures
        kept(a, p) == Seq::<T>::empty(),
    decreases a.len(),
{
    if a.len() > 0 {
        lemma_kept_none(a.drop_last(), p);
        assert(!p(a[a.len() - 1]));
    }
}

/// Undoing a note's creation: deleting a note right after inserting it
/// leaves the notes, the subjects, the associations and the search rows as
/// they were, and every term count that had not reached the largest value
/// a counter holds; only the next row number has moved on.
pub proof fn lemma_create_then_delete(v: StoreView, n: NoteView)
    requires
        tables_wf(v),
        can_insert(v, n),
    ensures
        deleted(inserted(v, n), n.id).notes == v.notes,
        deleted(inserted(v, n), n.id).subjects == v.subjects,
        deleted(inserted(v, n), n.id).links == v.links,
        deleted(inserted(v, n), n.id).rows == v.rows,
        deleted(inserted(v, n), n.id).next_rowid == v.next_rowid + 1,
        forall|t: Seq<char>|
            v.terms.dom().contains(t) && v.terms[t] < u64::MAX ==> #[trigger] deleted(inserted(v, n), n.id).terms[t]
                == v.terms[t],
{
    let w = inserted(v, n);
    let last = v.notes.len() as int;
    assert(w.notes[last].id == n.id);
    let p = note_pos(w.notes, n.id);
    if p != last {
        assert(v.notes[p].id == n.id);
        assert(has_note(v, n.id));
    }
    assert(w.notes.remove(last) =~= v.notes);
    let ls = links_for(n.id, or_nil(n.subjects));
    let lp = |l: (NoteId, SubjectId)| link_stays(Some(n.id), None, l);
    lemma_kept_append(v.links, ls, lp);
    assert forall|i: int| 0 <= i < v.links.len() implies lp(#[trigger] v.links[i]) by {
        assert(has_note(v, v.links[i].0));
    }
    lemma_kept_all(v.links, lp);
    lemma_kept_none(ls, lp);
    assert(v.links + Seq::<(NoteId, SubjectId)>::empty() =~= v.links);
    let rs = ls.map_values(
        |l: (NoteId, SubjectId)|
            SearchRow {
                note_id: l.0,
                subject_id: l.1,
                created_at: n.created_at,
                task_state: n.task_state,
            },
    );
    let rp = |r: SearchRow| row_stays(Some(n.id), None, r);
    lemma_kept_append(v.rows, rs, rp);
    assert forall|i: int| 0 <= i < v.rows.len() implies rp(#[trigger] v.rows[i]) by {
        assert(v.rows[i] == mirror(v.notes, v.links[i]));
        assert(has_note(v, v.links[i].0));
    }
    lemma_kept_all(v.rows, rp);
    lemma_kept_none(rs, rp);
    assert(v.rows + Seq::<SearchRow>::empty() =~= v.rows);
}


/// Undo of a note creation: performing `CreateNote` and then the inverse it
/// recorded, in either direction, leaves the notes, subjects, associations
/// and search rows as they were.
pub proof fn lemma_undo_create_note(
    v: StoreView,
    w: StoreView,
    u: StoreView,
    b: BuilderView,
    d1: ApplyDirection,
    inv: ActionView,
    d2: ApplyDirection,
    inv2: ActionView,
)
    requires
        tables_wf(v),
        acted(v, w, ActionView::CreateNote(b), d1, inv),
        acted(w, u, inv, d2, inv2),
    ensures
        u.notes == v.notes,
        u.subjects == v.subjects,
        u.links == v.links,
        u.rows == v.rows,
{
    let n = choose|n: NoteView|
        {
            &&& exists|id: NoteId, t: Timestamp| n == built(b, id, t)
            &&& can_insert(v, n)
            &&& w == inserted(v, n)
            &&& inv == ActionView::DeleteNote(n.id)
        };
    lemma_create_then_delete(v, n);
}

/// Undo of a subject creation: performing `AddSubject` with a given
/// identifier and then the inverse it recorded leaves the subjects, notes,
/// associations and search rows as they were, when no association named
/// that identifier.
pub proof fn lemma_undo_add_subject(
    v: StoreView,
    w: StoreView,
    u: StoreView,
    id: Option<SubjectId>,
    name: Seq<char>,
    d1: ApplyDirection,
    inv: ActionView,
    d2: ApplyDirection,
    inv2: ActionView,
)
    requires
        tables_wf(v),
        acted(v, w, ActionView::AddSubject(id, name), d1, inv),
        acted(w, u, inv, d2, inv2),
        id is Some,
        forall|i: int| 0 <= i < v.links.len() ==> Some(#[trigger] v.links[i].1) != id,
    ensures
        u.notes == v.notes,
        u.subjects == v.subjects,
        u.links == v.links,
        u.rows == v.rows,
{
    let sid = choose|sid: SubjectId|
        {
            &&& id is Some ==> sid == id->0
            &&& !crate::store::has_subject(v, sid)
            &&& !crate::store::name_taken(v, name, None, None)
            &&& w == (StoreView {
                subjects: v.subjects.push(crate::store::SubjectRowView { id: sid, name, parent_id: None }),
                ..v
            })
            &&& inv == ActionView::RemoveSubject(sid)
        };
    let last = v.subjects.len() as int;
    assert(w.subjects[last].id == sid);
    let p = subject_pos(w.subjects, sid);
    if p != last {
        assert(v.subjects[p].id == sid);
    }
    assert(w.subjects.remove(last) =~= v.subjects);
    let lp = |l: (NoteId, SubjectId)| link_stays(None, Some(sid), l);
    let rp = |r: SearchRow| row_stays(None, Some(sid), r);
    assert forall|i: int| 0 <= i < v.links.len() implies lp(#[trigger] v.links[i]) by {
        assert(Some(v.links[i].1) != id);
    }
    assert forall|i: int| 0 <= i < v.rows.len() implies rp(#[trigger] v.rows[i]) by {
        assert(v.rows[i] == mirror(v.notes, v.links[i]));
        assert(Some(v.links[i].1) != id);
    }
    lemma_kept_all(v.links, lp);
    lemma_kept_all(v.rows, rp);
}


proof fn lemma_has_note_inserted(v: StoreView, n: NoteView, id: NoteId)
    ensures
        has_note(inserted(v, n), id) <==> (has_note(v, id) || id == n.id),
{
    let w = inserted(v, n);
    if has_note(v, id) {
        let i = choose|i: int| 0 <= i < v.notes.len() && v.notes[i].id == id;
        assert(w.notes[i] == v.notes[i]);
    }
    if id == n.id {
        assert(w.notes[v.notes.len() as int].id == id);
    }
    if has_note(w, id) {
        let i = choose|i: int| 0 <= i < w.notes.len() && w.notes[i].id == id;
        if i < v.notes.len() {
            assert(v.notes[i] == w.notes[i]);
        }
    }
}

proof fn lemma_has_note_deleted(v: StoreView, gone: NoteId, id: NoteId)
    requires
        tables_wf(v),
        has_note(v, gone),
    ensures
        has_note(deleted(v, gone), id) <==> (has_note(v, id) && id != gone),
{
    let w = deleted(v, gone);
    let p = note_pos(v.notes, gone);
    lemma_deleted_gone(v, gone);
    if has_note(v, id) && id != gone {
        let i = choose|i: int| 0 <= i < v.notes.len() && v.notes[i].id == id;
        let i2 = if i < p { i } else { i - 1 };
        assert(w.notes[i2] == v.notes[i]);
    }
    if has_note(w, id) {
        let i = choose|i: int| 0 <= i < w.notes.len() && w.notes[i].id == id;
        let i0 = if i < p { i } else { i + 1 };
        assert(w.notes[i] == v.notes[i0]);
    }
}

/// Undo of an edit: performing `EditNote` and then the inverse it recorded
/// leaves the same notes stored, and gives the edited note back its text,
/// task state, times and subjects (the nil subject aside).
pub proof fn lemma_undo_edit_note(
    v: StoreView,
    w: StoreView,
    u: StoreView,
    id: NoteId,
    b: BuilderView,
    d1: ApplyDirection,
    inv: ActionView,
    d2: ApplyDirection,
    inv2: ActionView,
)
    requires
        tables_wf(v),
        tables_wf(w),
        acted(v, w, ActionView::EditNote(id, b), d1, inv),
        acted(w, u, inv, d2, inv2),
    ensures
        forall|i: NoteId| #[trigger] has_note(u, i) == has_note(v, i),
        u.notes[note_pos(u.notes, id)].text == v.notes[note_pos(v.notes, id)].text,
        u.notes[note_pos(u.notes, id)].task_state == v.notes[note_pos(v.notes, id)].task_state,
        u.notes[note_pos(u.notes, id)].created_at == v.notes[note_pos(v.notes, id)].created_at,
        u.notes[note_pos(u.notes, id)].modified_at == v.notes[note_pos(v.notes, id)].modified_at,
        u.notes[note_pos(u.notes, id)].done_at == v.notes[note_pos(v.notes, id)].done_at,
        forall|s: SubjectId|
            s.0 != NIL_SUBJECT ==> (#[trigger] u.links.contains((id, s)) == v.links.contains((id, s))),
{
    let (x, t) = choose|x: NoteView, t: Timestamp|
        {
            &&& has_note(v, id)
            &&& note_data(v, id, x)
            &&& w == inserted(deleted(v, id), applied(edit_builder(b, id, d1, t), x))
            &&& inv matches ActionView::EditNote(id2, b2) && id2 == id && b2 == builder_of(x)
        };
    let n1 = applied(edit_builder(b, id, d1, t), x);
    let (x2, t2) = choose|x2: NoteView, t2: Timestamp|
        {
            &&& has_note(w, id)
            &&& note_data(w, id, x2)
            &&& u == inserted(deleted(w, id), applied(edit_builder(builder_of(x), id, d2, t2), x2))
            &&& inv2 matches ActionView::EditNote(id3, b3) && id3 == id && b3 == builder_of(x2)
        };
    let n0 = applied(edit_builder(builder_of(x), id, d2, t2), x2);
    assert(n0.text == x.text && n0.task_state == x.task_state && n0.created_at == x.created_at);
    assert(n0.modified_at == x.modified_at && n0.done_at == x.done_at && n0.id == id);
    assert(n0.subjects == x.subjects);
    let dv = deleted(v, id);
    let dw = deleted(w, id);
    assert forall|i: NoteId| #[trigger] has_note(u, i) == has_note(v, i) by {
        lemma_has_note_deleted(v, id, i);
        lemma_has_note_inserted(dv, n1, i);
        lemma_has_note_deleted(w, id, i);
        lemma_has_note_inserted(dw, n0, i);
    }
    // the edited note is the last row of `u`
    lemma_deleted_gone(w, id);
    let last = dw.notes.len() as int;
    assert(u.notes[last].id == id);
    let p = note_pos(u.notes, id);
    if p != last {
        assert(dw.notes[p].id == id);
        assert(has_note(dw, id));
    }
    // links of the edited note in `u` are exactly those re-created for it
    let f = |l: (NoteId, SubjectId)| link_stays(Some(id), None, l);
    let ls = links_for(id, or_nil(n0.subjects));
    assert forall|s: SubjectId| s.0 != NIL_SUBJECT implies (#[trigger] u.links.contains((id, s)) == v.links.contains((id, s))) by {
        assert(x.subjects.contains(s) <==> v.links.contains((id, s)));
        if u.links.contains((id, s)) {
            let k = choose|k: int| 0 <= k < u.links.len() && u.links[k] == (id, s);
            if k < dw.links.len() {
                crate::store::lemma_kept_element(w.links, f, (id, s), k);
            } else {
                assert(ls[k - dw.links.len()] == (id, s));
                if n0.subjects.len() == 0 {
                    assert(s == SubjectId(NIL_SUBJECT));
                } else {
                    assert(n0.subjects[k - dw.links.len()] == s);
                }
            }
        }
        if x.subjects.contains(s) {
            let k = choose|k: int| 0 <= k < n0.subjects.len() && n0.subjects[k] == s;
            assert(or_nil(n0.subjects) == n0.subjects);
            assert(u.links[dw.links.len() + k] == (id, s));
        }
    }
}


/// Undo of a deletion: performing `DeleteNote` and then the inverse it
/// recorded stores the same notes again, and gives the note back its text,
/// task state, times and subjects (the nil subject aside).
pub proof fn lemma_undo_delete_note(
    v: StoreView,
    w: StoreView,
    u: StoreView,
    id: NoteId,
    d1: ApplyDirection,
    inv: ActionView,
    d2: ApplyDirection,
    inv2: ActionView,
)
    requires
        tables_wf(v),
        acted(v, w, ActionView::DeleteNote(id), d1, inv),
        acted(w, u, inv, d2, inv2),
    ensures
        forall|i: NoteId| #[trigger] has_note(u, i) == has_note(v, i),
        u.notes[note_pos(u.notes, id)].text == v.notes[note_pos(v.notes, id)].text,
        u.notes[note_pos(u.notes, id)].task_state == v.notes[note_pos(v.notes, id)].task_state,
        u.notes[note_pos(u.notes, id)].created_at == v.notes[note_pos(v.notes, id)].created_at,
        u.notes[note_pos(u.notes, id)].modified_at == v.notes[note_pos(v.notes, id)].modified_at,
        u.notes[note_pos(u.notes, id)].done_at == v.notes[note_pos(v.notes, id)].done_at,
        forall|s: SubjectId|
            s.0 != NIL_SUBJECT ==> (#[trigger] u.links.contains((id, s)) == v.links.contains((id, s))),
{
    let b2 = match inv {
        ActionView::CreateNote(b2) => b2,
        _ => arbitrary(),
    };
    let x = choose|x: NoteView| #![trigger note_data(v, id, x)] note_data(v, id, x) && b2 == builder_of(x);
    let n = choose|n: NoteView|
        {
            &&& exists|id2: NoteId, t: Timestamp| n == built(b2, id2, t)
            &&& can_insert(w, n)
            &&& u == inserted(w, n)
            &&& inv2 == ActionView::DeleteNote(n.id)
        };
    assert(n.text == x.text && n.task_state == x.task_state && n.created_at == x.created_at);
    assert(n.modified_at == x.modified_at && n.done_at == x.done_at && n.id == id);
    assert(n.subjects == x.subjects);
    assert forall|i: NoteId| #[trigger] has_note(u, i) == has_note(v, i) by {
        lemma_has_note_deleted(v, id, i);
        lemma_has_note_inserted(w, n, i);
    }
    let last = w.notes.len() as int;
    assert(u.notes[last].id == id);
    let p = note_pos(u.notes, id);
    if p != last {
        assert(w.notes[p].id == id);
    }
    let f = |l: (NoteId, SubjectId)| link_stays(Some(id), None, l);
    let ls = links_for(id, or_nil(n.subjects));
    assert forall|s: SubjectId| s.0 != NIL_SUBJECT implies (#[trigger] u.links.contains((id, s)) == v.links.contains((id, s))) by {
        assert(x.subjects.contains(s) <==> v.links.contains((id, s)));
        if u.links.contains((id, s)) {
            let k = choose|k: int| 0 <= k < u.links.len() && u.links[k] == (id, s);
            if k < w.links.len() {
                crate::store::lemma_kept_element(v.links, f, (id, s), k);
            } else {
                assert(ls[k - w.links.len()] == (id, s));
                if n.subjects.len() == 0 {
                    assert(s == SubjectId(NIL_SUBJECT));
                } else {
                    assert(n.subjects[k - w.links.len()] == s);
                }
            }
        }
        if x.subjects.contains(s) {
            let k = choose|k: int| 0 <= k < n.subjects.len() && n.subjects[k] == s;
            assert(or_nil(n.subjects) == n.subjects);
            assert(u.links[w.links.len() + k] == (id, s));
        }
    }
}


/// Similarity terms follow edits: when the only note counted for a term is
/// replaced by a text without it, the term's count drops to zero, so the
/// term is no longer a candidate of `term_stats`.
pub proof fn lemma_edit_drops_term(v: StoreView, id: NoteId, n: NoteView, t: Seq<char>)
    requires
        tables_wf(v),
        has_note(v, id),
        v.terms.dom().contains(t),
        v.terms[t] == 1,
        terms_of(normal_text(v.notes[note_pos(v.notes, id)].text)).count(t) > 0,
        terms_of(normal_text(n.text)).count(t) == 0,
    ensures
        inserted(deleted(v, id), n).terms[t] == 0,
{
}


proof fn lemma_subject_notes_contains(links: Seq<(NoteId, SubjectId)>, id: SubjectId, n: NoteId)
    ensures
        subject_notes(links, id).contains(n) <==> links.contains((n, id)),
    decreases links.len(),
{
    if links.len() > 0 {
        let d = links.drop_last();
        lemma_subject_notes_contains(d, id, n);
        let r = subject_notes(d, id);
        if links.contains((n, id)) {
            let k = choose|k: int| 0 <= k < links.len() && links[k] == (n, id);
            if k < d.len() {
                assert(d[k] == (n, id));
                let j = choose|j: int| 0 <= j < r.len() && r[j] == n;
                if links.last().1 == id {
                    assert(r.push(links.last().0)[j] == n);
                }
            } else {
                assert(r.push(links.last().0)[r.len() as int] == n);
            }
        }
        if subject_notes(links, id).contains(n) {
            let j = choose|j: int| 0 <= j < subject_notes(links, id).len() && subject_notes(links, id)[j] == n;
            if j < r.len() {
                assert(r[j] == n);
                let k = choose|k: int| 0 <= k < d.len() && d[k] == (n, id);
                assert(links[k] == (n, id));
            } else {
                assert(links[links.len() - 1] == (n, id));
            }
        }
    }
}

/// Undo of a subject removal: removing a subject and then performing the
/// inverse it recorded leaves the same subjects stored, the subject with
/// its name and parent again, and exactly the same associations.
pub proof fn lemma_undo_remove_subject(
    v: StoreView,
    w: StoreView,
    u: StoreView,
    id: SubjectId,
    d1: ApplyDirection,
    inv: ActionView,
    d2: ApplyDirection,
    inv2: ActionView,
)
    requires
        tables_wf(v),
        acted(v, w, ActionView::RemoveSubject(id), d1, inv),
        acted(w, u, inv, d2, inv2),
    ensures
        forall|i: SubjectId| #[trigger] crate::store::has_subject(u, i) == crate::store::has_subject(v, i),
        u.subjects[subject_pos(u.subjects, id)].name == v.subjects[subject_pos(v.subjects, id)].name,
        u.subjects[subject_pos(u.subjects, id)].parent_id == v.subjects[subject_pos(v.subjects, id)].parent_id,
        forall|l: (NoteId, SubjectId)| #[trigger] u.links.contains(l) == v.links.contains(l),
        u.notes == v.notes,
{
    let p = subject_pos(v.subjects, id);
    let row = v.subjects[p];
    let ns = subject_notes(v.links, id);
    assert(u == restored(w, id, row.name, row.parent_id, ns));
    assert forall|i: SubjectId| #[trigger] crate::store::has_subject(u, i) == crate::store::has_subject(v, i) by {
        if crate::store::has_subject(v, i) {
            let k = choose|k: int| 0 <= k < v.subjects.len() && v.subjects[k].id == i;
            if k < p {
                assert(u.subjects[k] == v.subjects[k]);
            } else if k > p {
                assert(u.subjects[k - 1] == v.subjects[k]);
            } else {
                assert(u.subjects[w.subjects.len() as int].id == i);
            }
        }
        if crate::store::has_subject(u, i) {
            let k = choose|k: int| 0 <= k < u.subjects.len() && u.subjects[k].id == i;
            if k < w.subjects.len() {
                let k0 = if k < p { k } else { k + 1 };
                assert(v.subjects[k0] == u.subjects[k]);
            } else {
                assert(v.subjects[p].id == i);
            }
        }
    }
    let last = w.subjects.len() as int;
    assert(u.subjects[last].id == id);
    let q = subject_pos(u.subjects, id);
    if q != last {
        let q0 = if q < p { q } else { q + 1 };
        assert(v.subjects[q0] == u.subjects[q]);
        assert(v.subjects[q0].id != v.subjects[p].id);
    }
    let f = |l: (NoteId, SubjectId)| link_stays(None, Some(id), l);
    let ls = ns.map_values(|n: NoteId| (n, id));
    assert forall|l: (NoteId, SubjectId)| #[trigger] u.links.contains(l) == v.links.contains(l) by {
        if l.1 != id {
            if v.links.contains(l) {
                crate::store::lemma_kept_contains_rev(v.links, f, l);
                let k = choose|k: int| 0 <= k < w.links.len() && w.links[k] == l;
                assert(u.links[k] == l);
            }
            if u.links.contains(l) {
                let k = choose|k: int| 0 <= k < u.links.len() && u.links[k] == l;
                if k < w.links.len() {
                    crate::store::lemma_kept_element(v.links, f, l, k);
                    crate::store::lemma_kept_contains(v.links, f, l);
                } else {
                    assert(ls[k - w.links.len()] == l);
                }
            }
        } else {
            lemma_subject_notes_contains(v.links, id, l.0);
            if v.links.contains(l) {
                let j = choose|j: int| 0 <= j < ns.len() && ns[j] == l.0;
                assert(u.links[w.links.len() + j] == l);
            }
            if u.links.contains(l) {
                let k = choose|k: int| 0 <= k < u.links.len() && u.links[k] == l;
                if k < w.links.len() {
                    crate::store::lemma_kept_element(v.links, f, l, k);
                } else {
                    assert(ls[k - w.links.len()] == l);
                    assert(ns[k - w.links.len()] == l.0);
                }
            }
        }
    }
}

} // verus!
