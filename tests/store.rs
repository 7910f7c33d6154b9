use emergence::model::{NoteBuilder, NoteData, NoteId, NoteSearch, StoreError, SubjectData, SubjectId, TaskState};
use emergence::store::{ConnectionType, Store, TermStats};

fn ranked_words(stats: &TermStats) -> Vec<String> {
    let mut scored: Vec<(String, f64)> = Vec::new();
    for c in &stats.candidates {
        let tf = c.in_text as f64 / stats.distinct_terms as f64;
        let idf = (stats.total_notes as f64 / c.in_notes as f64).ln();
        scored.push((c.term.clone(), tf * idf));
    }
    scored.sort_by(|a, b| b.1.partial_cmp(&a.1).unwrap());
    scored.into_iter().map(|(w, _)| w).collect()
}

#[test]
fn test_note_query_by_subject() -> Result<(), StoreError> {
    let mut store = Store::new(ConnectionType::InMemory);
    let subject1 = store.add_subject("Test subject 1".to_string())?;
    let subject2 = store.add_subject("Test subject 2".to_string())?;

    store.add_note(NoteBuilder::new().text("Test note 1").subject(subject1.id))?;
    store.add_note(NoteBuilder::new().text("Test note 2").subject(subject2.id))?;

    let note_ids = store.find_notes(NoteSearch::new()).unwrap();
    let notes = store.get_notes(&note_ids).unwrap();
    assert_eq!(notes.len(), 2);
    assert_eq!(notes[0].text, "Test note 2");
    assert_eq!(notes[0].subjects, vec![subject2.id]);
    assert_eq!(notes[1].text, "Test note 1");
    assert_eq!(notes[1].subjects, vec![subject1.id]);

    let note_ids = store.find_notes(NoteSearch::new().subject(subject1.id)).unwrap();
    let notes = store.get_notes(&note_ids).unwrap();
    assert_eq!(notes.len(), 1);
    assert_eq!(notes[0].text, "Test note 1");

    let note_ids = store.find_notes(NoteSearch::new().subject(subject2.id)).unwrap();
    let notes = store.get_notes(&note_ids).unwrap();
    assert_eq!(notes.len(), 1);
    assert_eq!(notes[0].text, "Test note 2");

    Ok(())
}

#[test]
fn test_subject_query() -> Result<(), StoreError> {
    let mut store = Store::new(ConnectionType::InMemory);
    store.add_subject("Test subject 1".to_string())?;
    store.add_subject("Test subject 2".to_string())?;

    let subjects = store.get_subjects()?;
    assert_eq!(subjects.len(), 2);
    assert_eq!(subjects[0].name, "Test subject 1");
    assert_eq!(subjects[1].name, "Test subject 2");

    Ok(())
}

#[test]
fn cant_add_duplicate_subject() -> Result<(), StoreError> {
    let mut store = Store::new(ConnectionType::InMemory);
    let name = "Test subject 1".to_string();
    store.add_subject(name.clone())?;
    assert!(store.add_subject(name).is_err());
    Ok(())
}

#[test]
fn test_edit_note() -> Result<(), StoreError> {
    let mut store = Store::new(ConnectionType::InMemory);
    let subject1 = store.add_subject("Test subject 1".to_string())?;
    let subject2 = store.add_subject("Test subject 2".to_string())?;

    let note1 = store.add_note(NoteBuilder::new().text("Test note 1").subject(subject1.id))?;
    let _note2 = store.add_note(NoteBuilder::new().text("Test note 2").subject(subject1.id))?;

    let modified_note1 = NoteBuilder::new()
        .text("Test note 1 modified")
        .subject(subject2.id)
        .modified_now()
        .apply_to_note(&note1);

    store.update_note(modified_note1)?;

    let note_ids = store.find_notes(NoteSearch::new()).unwrap();
    let notes = store.get_notes(&note_ids).unwrap();
    assert_eq!(notes.len(), 2);

    assert_eq!(notes[0].text, "Test note 2");
    assert_eq!(notes[0].subjects, vec![subject1.id]);
    assert!(notes[0].modified_at == notes[0].created_at);

    assert_eq!(notes[1].text, "Test note 1 modified");
    assert!(notes[1].modified_at > notes[1].created_at);
    assert_eq!(notes[1].subjects, vec![subject2.id]);

    let note_ids = store.find_notes(NoteSearch::new().subject(subject1.id)).unwrap();
    let notes = store.get_notes(&note_ids).unwrap();
    assert_eq!(notes.len(), 1);
    assert_eq!(notes[0].text, "Test note 2");

    let note_ids = store.find_notes(NoteSearch::new().subject(subject2.id)).unwrap();
    let notes = store.get_notes(&note_ids).unwrap();
    assert_eq!(notes.len(), 1);
    assert_eq!(notes[0].text, "Test note 1 modified");

    Ok(())
}

#[test]
fn test_delete_note() -> Result<(), StoreError> {
    let mut store = Store::new(ConnectionType::InMemory);
    let subject1 = store.add_subject("Test subject 1".to_string())?;
    let subject2 = store.add_subject("Test subject 2".to_string())?;

    let note1 = store.add_note(NoteBuilder::new().text("Test note 1").subject(subject1.id))?;
    let note2 = store.add_note(NoteBuilder::new().text("Test note 2").subject(subject1.id))?;

    store.delete_note(note1.id)?;

    let note_ids = store.find_notes(NoteSearch::new()).unwrap();
    let notes = store.get_notes(&note_ids).unwrap();
    assert_eq!(notes.len(), 1);

    assert_eq!(notes[0].text, "Test note 2");
    assert_eq!(notes[0].subjects, vec![subject1.id]);
    assert!(notes[0].modified_at == notes[0].created_at);

    let note_ids = store.find_notes(NoteSearch::new().subject(subject1.id)).unwrap();
    let notes = store.get_notes(&note_ids).unwrap();
    assert_eq!(notes.len(), 1);
    assert_eq!(notes[0].text, "Test note 2");

    let note_ids = store.find_notes(NoteSearch::new().subject(subject2.id)).unwrap();
    let notes = store.get_notes(&note_ids).unwrap();
    assert_eq!(notes.len(), 0);

    store.delete_note(note2.id)?;

    let notes = store.find_notes(NoteSearch::new()).unwrap();
    assert_eq!(notes.len(), 0);

    Ok(())
}

#[test]
fn test_tasks() -> Result<(), StoreError> {
    let mut store = Store::new(ConnectionType::InMemory);
    let subject1 = store.add_subject("Test subject 1".to_string())?;
    let subject2 = store.add_subject("Test subject 2".to_string())?;

    let note1 = store.add_note(
        NoteBuilder::new()
            .text("Test note 1")
            .subject(subject1.id)
            .task_state(TaskState::NotATask),
    )?;

    let search = NoteSearch::new().task_only(true);

    let notes = store.find_notes(search).unwrap();
    assert_eq!(notes.len(), 0);

    store.update_note(note1.modify_with(NoteBuilder::new().task_state(TaskState::Todo)))?;

    let notes = store.find_notes(search).unwrap();
    assert_eq!(notes.len(), 1);

    let notes = store.find_notes(search.subject(subject1.id)).unwrap();
    assert_eq!(notes.len(), 1);
    let notes = store.find_notes(search.subject(subject2.id)).unwrap();
    assert_eq!(notes.len(), 0);

    store.update_note(note1.modify_with(NoteBuilder::new().task_state(TaskState::Done)))?;
    let notes = store.find_notes(search).unwrap();
    assert_eq!(notes.len(), 1);

    store.update_note(
        note1.modify_with(NoteBuilder::new().task_state(TaskState::Todo).subject(subject2.id)),
    )?;

    let notes = store.find_notes(search).unwrap();
    assert_eq!(notes.len(), 1);

    let notes = store.find_notes(search.subject(subject1.id)).unwrap();
    assert_eq!(notes.len(), 0);
    let notes = store.find_notes(search.subject(subject2.id)).unwrap();
    assert_eq!(notes.len(), 1);

    Ok(())
}

#[test]
fn test_delete_subject() -> Result<(), StoreError> {
    let mut store = Store::new(ConnectionType::InMemory);
    let subject1 = store.add_subject("Test subject 1".to_string())?;
    let subject2 = store.add_subject("Test subject 2".to_string())?;

    let note1 = store.add_note(NoteBuilder::new().text("Test note 1").subject(subject1.id))?;

    assert!(store.delete_subject(subject2.id).is_ok());

    store.delete_note(note1.id)?;

    assert!(store.delete_subject(subject1.id).is_ok());

    assert!(store.get_subjects()?.is_empty());

    Ok(())
}

#[test]
fn test_best_word_solve() -> Result<(), StoreError> {
    let mut store = Store::new(ConnectionType::InMemory);
    let note1 = store.add_note(NoteBuilder::new().text("This has words we care about: xkcd"))?;
    store.add_note(NoteBuilder::new().text("This does not have useful words"))?;

    let words = ranked_words(&store.term_stats("xkcd foo word"));
    assert_eq!(words, vec!["xkcd", "word"]);

    store.update_note(NoteData {
        text: "This no longer has words we care about".to_string(),
        ..note1.clone()
    })?;

    let words = ranked_words(&store.term_stats("xkcd foo word"));
    assert_eq!(words, vec!["word"]);

    Ok(())
}

#[test]
fn term_stats_counts_draft_and_corpus() -> Result<(), StoreError> {
    let mut store = Store::new(ConnectionType::InMemory);
    store.add_note(NoteBuilder::new().text("This has words we care about: xkcd"))?;
    store.add_note(NoteBuilder::new().text("This does not have useful words"))?;
    let stats = store.term_stats("xkcd foo word word");
    assert_eq!(stats.total_notes, 2);
    assert_eq!(stats.distinct_terms, 3);
    let mut got: Vec<(String, usize, u64)> = stats
        .candidates
        .iter()
        .map(|c| (c.term.clone(), c.in_text, c.in_notes))
        .collect();
    got.sort();
    assert_eq!(got, vec![("word".to_string(), 2, 2), ("xkcd".to_string(), 1, 1)]);
    Ok(())
}

#[test]
fn rebuilding_term_counts_matches_incremental_counts() -> Result<(), StoreError> {
    let mut store = Store::new(ConnectionType::InMemory);
    store.add_note(NoteBuilder::new().text("Apples and pears"))?;
    store.add_note(NoteBuilder::new().text("apple tree"))?;
    let before = store.term_stats("apple pear tree");
    store.fill_word_occurence_table();
    let after = store.term_stats("apple pear tree");
    let key = |s: &TermStats| {
        let mut v: Vec<(String, u64)> = s.candidates.iter().map(|c| (c.term.clone(), c.in_notes)).collect();
        v.sort();
        v
    };
    assert_eq!(key(&before), key(&after));
    assert_eq!(key(&after), vec![("apple".to_string(), 2), ("pear".to_string(), 1), ("tree".to_string(), 1)]);
    Ok(())
}

#[test]
fn round_trip_keeps_builder_fields() -> Result<(), StoreError> {
    let mut store = Store::new(ConnectionType::InMemory);
    let s1 = store.add_subject("a".to_string())?;
    let s2 = store.add_subject("b".to_string())?;
    let b = NoteBuilder::new()
        .text("hello")
        .subjects(vec![s1.id, s2.id])
        .task_state(TaskState::Done)
        .created_at(10)
        .modified_at(20)
        .done_at(Some(30));
    let added = store.add_note(b)?;
    let got = store.get_note(added.id)?;
    assert_eq!(got.text, "hello");
    assert_eq!(got.task_state, TaskState::Done);
    assert_eq!(got.created_at, 10);
    assert_eq!(got.modified_at, 20);
    assert_eq!(got.done_at, Some(30));
    let mut expected = vec![s1.id, s2.id];
    expected.sort();
    assert_eq!(got.subjects, expected);

    let plain = store.add_note(NoteBuilder::new())?;
    let got = store.get_note(plain.id)?;
    assert_eq!(got.text, "");
    assert_eq!(got.task_state, TaskState::NotATask);
    assert!(got.subjects.is_empty());
    assert_eq!(got.done_at, None);
    assert_eq!(got.created_at, got.modified_at);
    assert_ne!(got.id, NoteId(0));
    Ok(())
}

#[test]
fn deleted_note_is_gone_everywhere() -> Result<(), StoreError> {
    let mut store = Store::new(ConnectionType::InMemory);
    let s = store.add_subject("s".to_string())?;
    let n = store.add_note(NoteBuilder::new().text("t").subject(s.id).task_state(TaskState::Todo))?;
    store.delete_note(n.id)?;
    assert_eq!(store.get_note(n.id), Err(StoreError::NotFound));
    assert_eq!(store.delete_note(n.id), Err(StoreError::NotFound));
    for q in [
        NoteSearch::new(),
        NoteSearch::new().subject(s.id),
        NoteSearch::new().task_only(true),
        NoteSearch::new().subject(s.id).task_only(true),
    ] {
        assert!(!store.find_notes(q).unwrap().contains(&n.id));
    }
    assert_eq!(store.subject_note_count(s.id), Ok(0));
    assert!(store.delete_subject(s.id).is_ok());
    Ok(())
}

#[test]
fn tasks_order_todo_before_done() -> Result<(), StoreError> {
    let mut store = Store::new(ConnectionType::InMemory);
    let done = store.add_note(NoteBuilder::new().text("d").task_state(TaskState::Done).created_at(5))?;
    let todo_old = store.add_note(NoteBuilder::new().text("a").task_state(TaskState::Todo).created_at(1))?;
    let todo_new = store.add_note(NoteBuilder::new().text("b").task_state(TaskState::Todo).created_at(3))?;
    store.add_note(NoteBuilder::new().text("x").created_at(9))?;
    let ids = store.find_notes(NoteSearch::new().task_only(true)).unwrap();
    assert_eq!(ids, vec![todo_new.id, todo_old.id, done.id]);
    Ok(())
}

#[test]
fn find_notes_caps_at_page_size() -> Result<(), StoreError> {
    let mut store = Store::new(ConnectionType::InMemory);
    for i in 0..205 {
        store.add_note(NoteBuilder::new().created_at(i))?;
    }
    let ids = store.find_notes(NoteSearch::new()).unwrap();
    assert_eq!(ids.len(), 200);
    let first = store.get_note(ids[0])?;
    assert_eq!(first.created_at, 204);
    let all = store.get_all_notes()?;
    assert_eq!(all.len(), 205);
    assert_eq!(all[204].created_at, 0);
    Ok(())
}

#[test]
fn store_errors() -> Result<(), StoreError> {
    let mut store = Store::new(ConnectionType::InMemory);
    let n = store.add_note(NoteBuilder::new().text("x"))?;
    assert_eq!(
        store.add_note(NoteBuilder::new().with_id(n.id)).err(),
        Some(StoreError::StorageFailure)
    );
    let s = store.add_subject("s".to_string())?;
    assert_eq!(
        store.add_note(NoteBuilder::new().subjects(vec![s.id, s.id])).err(),
        Some(StoreError::StorageFailure)
    );
    assert_eq!(store.get_subject(SubjectId(12345)).err(), Some(StoreError::NotFound));
    assert_eq!(
        store.add_subject_with_id(s.id, "other".to_string()).err(),
        Some(StoreError::StorageFailure)
    );
    assert_eq!(store.add_subject("s".to_string()).err(), Some(StoreError::Conflict));
    let child = store.add_subject("c".to_string())?;
    let sibling = store.import_subject(&SubjectData {
        id: SubjectId(77),
        name: "c".to_string(),
        parent_id: Some(s.id),
        children: vec![],
    });
    assert!(sibling.is_ok());
    assert_eq!(store.set_subject_parent(child.id, Some(s.id)), Err(StoreError::Conflict));
    assert_eq!(store.update_note(NoteData { id: NoteId(999), ..n.clone() }), Err(StoreError::NotFound));
    assert_eq!(store.import_notes_subject(NoteId(999), s.id), Err(StoreError::StorageFailure));
    Ok(())
}

#[test]
fn subject_tree_and_associations_agree() -> Result<(), StoreError> {
    let mut store = Store::new(ConnectionType::InMemory);
    let parent = store.add_subject_with_id(SubjectId(5), "parent".to_string())?;
    let child = store.add_subject_with_id(SubjectId(3), "child".to_string())?;
    store.set_subject_parent(child.id, Some(parent.id))?;
    let p = store.get_subject(parent.id)?;
    assert_eq!(p.children, vec![child.id]);
    assert_eq!(store.get_subject(child.id)?.parent_id, Some(parent.id));

    let n = store.add_note(NoteBuilder::new().text("n"))?;
    assert_eq!(store.get_notes_subjects()?, vec![(n.id, SubjectId(0))]);
    store.import_notes_subject(n.id, child.id)?;
    assert_eq!(store.import_notes_subject(n.id, child.id), Err(StoreError::StorageFailure));
    assert_eq!(store.subject_note_count(child.id), Ok(1));
    assert_eq!(store.get_note(n.id)?.subjects, vec![child.id]);
    assert_eq!(store.find_notes(NoteSearch::new().subject(child.id)).unwrap(), vec![n.id]);
    store.delete_subject(child.id)?;
    assert_eq!(store.subject_note_count(child.id), Ok(0));
    assert!(store.get_note(n.id)?.subjects.is_empty());
    Ok(())
}

#[test]
fn import_and_rowid_lookup() -> Result<(), StoreError> {
    let mut store = Store::new(ConnectionType::InMemory);
    let note = NoteData {
        rowid: 0,
        id: NoteId(42),
        text: "imported".to_string(),
        subjects: vec![],
        task_state: TaskState::Todo,
        created_at: 7,
        modified_at: 8,
        done_at: None,
    };
    store.import_note(&note)?;
    assert_eq!(store.import_note(&note), Err(StoreError::StorageFailure));
    let got = store.get_note(NoteId(42))?;
    assert_eq!(got.text, "imported");
    let found = store.notes_by_rowids(&vec![999, got.rowid, 1000]);
    assert_eq!(found.len(), 1);
    assert_eq!(found[0].id, NoteId(42));
    store.setup_tables();
    let stats = store.term_stats("imported");
    assert_eq!(stats.candidates.len(), 1);
    Ok(())
}

#[test]
fn task_state_numbers() {
    assert_eq!(TaskState::Todo.to_db_value(), 1);
    assert_eq!(TaskState::from_db_value(2), TaskState::Done);
    assert_eq!(TaskState::from_db_value(0), TaskState::NotATask);
}

#[test]
fn setup_rebuilds_zero_term_counts() -> Result<(), StoreError> {
    let mut store = Store::new(ConnectionType::InMemory);
    let n = store.add_note(NoteBuilder::new().text("zebra"))?;
    store.delete_note(n.id)?;
    store.import_note(&n)?;
    assert_eq!(store.term_stats("zebra").candidates.len(), 1);
    let mut empty = Store::new(ConnectionType::InMemory);
    let m = empty.add_note(NoteBuilder::new().text("zebra"))?;
    empty.delete_note(m.id)?;
    assert!(empty.term_stats("zebra").candidates.is_empty());
    empty.setup_tables();
    assert!(empty.term_stats("zebra").candidates.is_empty());
    Ok(())
}
