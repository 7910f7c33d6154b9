use emergence::layer::LayerAction::{AddSubject, CreateNote, DeleteNote, EditNote, RemoveSubject, SetSubjectParent};
use emergence::layer::{DbActions, LayerAction, LayerEffect};
use emergence::model::{NoteBuilder, NoteData, NoteId, NoteSearch, StoreError, Subject, SubjectId};
use emergence::store::{ConnectionType, Store};
use rand::seq::SliceRandom;
use rand::Rng;

fn setup() -> DbActions {
    let store = Store::new(ConnectionType::InMemory);
    DbActions::new(store)
}

fn assert_matches_note(builder: &NoteBuilder, note: &NoteData) {
    let expected = builder.clone().apply_to_note(note);
    assert_eq!(&expected, note);
}

fn random_action(
    actions: &mut DbActions,
    valid_notes: &mut Vec<NoteId>,
    valid_subjects: &mut Vec<SubjectId>,
) -> Option<()> {
    let mut r = rand::thread_rng();
    let mut choice = r.gen_range(0..=4);
    if choice == 3 && valid_notes.is_empty() {
        choice = 4;
    }
    if choice == 4 && valid_subjects.is_empty() {
        choice = r.gen_range(0..=2);
    }

    match choice {
        0 => {
            let builder = NoteBuilder::new().decide_id();
            valid_notes.push(builder.id());
            let action = LayerAction::CreateNote(builder);
            actions.perform(action).unwrap();
        }
        1 => {
            let id = *valid_notes.choose(&mut r)?;
            let action = LayerAction::EditNote(id, NoteBuilder::new().modified_at(r.gen::<i64>()));
            actions.perform(action).unwrap();
        }
        2 => {
            let n: u64 = r.gen();
            let name = format!("{n}");
            let action = LayerAction::AddSubject(None, name);
            actions.perform(action).unwrap();
            valid_subjects.push(actions.last_added_subject().unwrap().id);
        }
        3 => {
            let idx = r.gen_range(0..valid_notes.len());
            let id = valid_notes.remove(idx);
            let action = LayerAction::DeleteNote(id);
            actions.perform(action).unwrap();
        }
        4 => {
            let idx = r.gen_range(0..valid_subjects.len());
            let id = valid_subjects.remove(idx);
            let action = LayerAction::RemoveSubject(id);
            actions.perform(action).unwrap();
        }
        _ => unreachable!(),
    };
    Some(())
}

fn store_state(actions: &mut DbActions) -> (Vec<NoteData>, Vec<Subject>) {
    let ids = actions.get_note_ids_for_search(NoteSearch::new()).unwrap();
    let notes = ids
        .into_iter()
        .enumerate()
        .map(|(idx, id)| {
            let mut note = actions.get_note_by_id(id).unwrap();
            note.rowid = idx as i64;
            note
        })
        .collect();
    let subjects = actions.get_subjects().unwrap();
    (notes, subjects)
}

#[test]
fn proptest_undo_redo() {
    let mut actions = setup();
    for _ in 0..10 {
        actions.clear_history();
        let mut valid_notes = Vec::new();
        let mut valid_subjects = Vec::new();

        let start = store_state(&mut actions);

        let mut count = 0;
        while count < 10 {
            if random_action(&mut actions, &mut valid_notes, &mut valid_subjects).is_some() {
                count += 1;
            }
        }

        let after_init = store_state(&mut actions);

        let mut count = 0;
        while count < 10 {
            if random_action(&mut actions, &mut valid_notes, &mut valid_subjects).is_some() {
                count += 1;
            }
        }

        let after_actions = store_state(&mut actions);

        for _ in 0..10 {
            actions.undo().unwrap();
        }

        let after_undo = store_state(&mut actions);

        for _ in 0..10 {
            actions.redo().unwrap();
        }

        let after_redo = store_state(&mut actions);

        for _ in 0..20 {
            actions.undo().unwrap();
        }

        let end = store_state(&mut actions);

        assert_eq!(after_init, after_undo);
        assert_eq!(after_actions, after_redo);
        assert_eq!(start, end);
    }
}

#[test]
fn create_note() {
    let mut actions = setup();
    let builder = NoteBuilder::new().text("Test Note");
    actions.perform(CreateNote(builder.clone())).unwrap();

    let note_ids = actions.get_note_ids_for_search(NoteSearch::new()).unwrap();
    assert_eq!(note_ids.len(), 1);

    let note = actions.get_note_by_id(note_ids[0]).unwrap();
    assert_matches_note(&builder, &note);
}

#[test]
fn deleted_note_listing() {
    let mut actions = setup();
    let builder1 = NoteBuilder::new().text("Test Note 1").decide_id();
    let builder2 = NoteBuilder::new().text("Test Note 2").decide_id();
    actions.perform(CreateNote(builder1.clone())).unwrap();
    actions.perform(CreateNote(builder2.clone())).unwrap();

    let note_ids = actions.get_note_ids_for_search(NoteSearch::new()).unwrap();
    assert_eq!(note_ids, vec![builder2.id(), builder1.id()]);

    actions.perform(DeleteNote(builder1.id())).unwrap();
    let note_ids = actions.get_note_ids_for_search(NoteSearch::new()).unwrap();
    assert_eq!(note_ids, vec![builder2.id()]);

    actions.perform(DeleteNote(builder2.id())).unwrap();
    let note_ids = actions.get_note_ids_for_search(NoteSearch::new()).unwrap();
    assert_eq!(note_ids, vec![]);
}

#[test]
#[should_panic]
fn reading_deleted_note_fails() {
    let mut actions = setup();
    let builder1 = NoteBuilder::new().text("Test Note 1").decide_id();
    actions.perform(CreateNote(builder1.clone())).unwrap();
    actions.perform(DeleteNote(builder1.id())).unwrap();
    actions.get_note_by_id(builder1.id()).unwrap();
}

#[test]
fn edit_note_with() {
    let mut actions = setup();
    let builder1 = NoteBuilder::new().text("Test Note 1").decide_id();
    let modify = NoteBuilder::new().text("Modified Test Note 1");
    actions.perform(CreateNote(builder1.clone())).unwrap();
    actions.perform(EditNote(builder1.id(), modify.clone())).unwrap();
    let note = actions.get_note_by_id(builder1.id()).unwrap();
    assert_matches_note(&modify, &note);
}

#[test]
fn subject_search() {
    let mut actions = setup();
    actions.perform(AddSubject(None, "Subject".to_string())).unwrap();
    let subject = actions.last_added_subject().unwrap();

    let builder1 = NoteBuilder::new().text("Test Note 1").decide_id();
    let builder2 = NoteBuilder::new().text("Test Note 2").subject(subject.id).decide_id();
    actions.perform(CreateNote(builder1.clone())).unwrap();
    actions.perform(CreateNote(builder2.clone())).unwrap();

    let note_ids = actions.get_note_ids_for_search(NoteSearch::new().subject(subject.id));
    assert_eq!(note_ids.unwrap(), vec![builder2.id()])
}

#[test]
fn reads_after_mutation_are_fresh() {
    let mut actions = setup();
    let b = NoteBuilder::new().text("first").decide_id();
    let id = b.id();
    actions.perform(CreateNote(b)).unwrap();
    assert_eq!(actions.get_note_by_id(id).unwrap().text, "first");
    assert_eq!(actions.get_note_ids_for_search(NoteSearch::new()).unwrap(), vec![id]);

    let effect = actions.perform(EditNote(id, NoteBuilder::new().text("second"))).unwrap();
    assert_eq!(effect, LayerEffect::InvalidateNote(id));
    assert_eq!(actions.get_note_by_id(id).unwrap().text, "second");

    let other = NoteBuilder::new().text("other").decide_id();
    let other_id = other.id();
    assert_eq!(actions.perform(CreateNote(other)).unwrap(), LayerEffect::InvalidateQuery);
    assert_eq!(actions.get_note_ids_for_search(NoteSearch::new()).unwrap(), vec![other_id, id]);

    actions.perform(DeleteNote(id)).unwrap();
    assert!(actions.get_note_by_id(id).is_err());
    assert_eq!(actions.get_note_ids_for_search(NoteSearch::new()).unwrap(), vec![other_id]);
}

#[test]
fn undo_edit_restores_modification_time() {
    let mut actions = setup();
    let b = NoteBuilder::new().text("a").modified_at(100).created_at(50).decide_id();
    let id = b.id();
    actions.perform(CreateNote(b)).unwrap();
    actions.perform(EditNote(id, NoteBuilder::new().text("b"))).unwrap();
    let edited = actions.get_note_by_id(id).unwrap();
    assert_ne!(edited.modified_at, 100);
    assert!(actions.can_undo());
    actions.undo().unwrap();
    let restored = actions.get_note_by_id(id).unwrap();
    assert_eq!(restored.text, "a");
    assert_eq!(restored.modified_at, 100);
    assert!(actions.can_redo());
    actions.redo().unwrap();
    assert_eq!(actions.get_note_by_id(id).unwrap().text, "b");
}

#[test]
fn undo_with_empty_queue_does_nothing() {
    let mut actions = setup();
    assert_eq!(actions.undo(), Ok(None));
    assert_eq!(actions.redo(), Ok(None));
    assert!(!actions.can_undo());
}

#[test]
fn failed_action_records_nothing() {
    let mut actions = setup();
    assert!(actions.perform(DeleteNote(NoteId(5))).is_err());
    assert!(!actions.can_undo());
    actions.perform(AddSubject(None, "x".to_string())).unwrap();
    assert!(actions.perform(AddSubject(None, "x".to_string())).is_err());
    actions.undo().unwrap();
    assert!(!actions.can_undo());
    assert!(actions.get_subjects().unwrap().is_empty());
}

#[test]
fn undo_queue_is_bounded() {
    let mut actions = setup();
    for i in 0..70 {
        actions.perform(AddSubject(None, format!("s{i}"))).unwrap();
    }
    let mut undone = 0;
    while actions.can_undo() {
        actions.undo().unwrap();
        undone += 1;
    }
    assert_eq!(undone, 64);
    assert_eq!(actions.get_subjects().unwrap().len(), 6);
}

#[test]
fn undo_remove_subject_restores_parent_and_notes() {
    let mut actions = setup();
    actions.perform(AddSubject(Some(SubjectId(10)), "parent".to_string())).unwrap();
    actions.perform(AddSubject(Some(SubjectId(11)), "child".to_string())).unwrap();
    actions
        .perform(SetSubjectParent { subject: SubjectId(11), parent: Some(SubjectId(10)) })
        .unwrap();
    let b = NoteBuilder::new().text("n").subject(SubjectId(11)).decide_id();
    let id = b.id();
    actions.perform(CreateNote(b)).unwrap();
    let before = store_state(&mut actions);

    assert_eq!(actions.perform(RemoveSubject(SubjectId(11))), Ok(LayerEffect::InvalidateSubjects));
    assert!(actions.get_note_by_id(id).unwrap().subjects.is_empty());
    assert_eq!(actions.undo(), Ok(Some(LayerEffect::InvalidateSubjects)));

    assert_eq!(store_state(&mut actions), before);
    let child = actions.store().get_subject(SubjectId(11)).unwrap();
    assert_eq!(child.parent_id, Some(SubjectId(10)));
    assert_eq!(actions.get_note_by_id(id).unwrap().subjects, vec![SubjectId(11)]);
    let ids = actions.get_note_ids_for_search(NoteSearch::new().subject(SubjectId(11))).unwrap();
    assert_eq!(ids, vec![id]);
    actions.redo().unwrap();
    assert!(actions.store().get_subject(SubjectId(11)).is_err());
}

#[test]
fn failing_actions_report_their_error() {
    let mut actions = setup();
    assert_eq!(actions.perform(DeleteNote(NoteId(1))), Err(StoreError::NotFound));
    assert_eq!(actions.perform(EditNote(NoteId(1), NoteBuilder::new())), Err(StoreError::NotFound));
    assert_eq!(actions.perform(RemoveSubject(SubjectId(1))), Err(StoreError::NotFound));
    assert_eq!(
        actions.perform(SetSubjectParent { subject: SubjectId(1), parent: None }),
        Err(StoreError::NotFound)
    );
    actions.perform(AddSubject(Some(SubjectId(1)), "a".to_string())).unwrap();
    assert_eq!(
        actions.perform(AddSubject(Some(SubjectId(1)), "b".to_string())),
        Err(StoreError::StorageFailure)
    );
    assert_eq!(
        actions.perform(AddSubject(Some(SubjectId(2)), "a".to_string())),
        Err(StoreError::Conflict)
    );
    let b = NoteBuilder::new().with_id(NoteId(7));
    actions.perform(CreateNote(b.clone())).unwrap();
    assert_eq!(actions.perform(CreateNote(b)), Err(StoreError::StorageFailure));
    assert_eq!(
        actions.perform(EditNote(NoteId(7), NoteBuilder::new().subjects(vec![SubjectId(1), SubjectId(1)]))),
        Err(StoreError::StorageFailure)
    );
    assert_eq!(actions.last_added_subject().unwrap().id, SubjectId(1));
}
