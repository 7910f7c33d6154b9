use emergence::cache::Cache;
use emergence::model::{NoteId, NoteSearch, SubjectId};
use emergence::search::{search_query, similar_terms, Query, SearchSlot};

#[test]
fn builds_query_text() {
    let q = search_query(&vec!["Hello, World".to_string(), "".to_string(), "x1y".to_string()]);
    assert_eq!(q, "(hello  world) OR (x y)");
    assert_eq!(search_query(&vec![]), "");
    assert_eq!(search_query(&vec!["ABC".to_string()]), "(abc)");
}

#[test]
fn picks_similar_terms() {
    let words: Vec<String> = (0..7).map(|i| format!("w{i}")).collect();
    assert_eq!(similar_terms(&words), vec!["w0", "w1", "w2", "w3", "w4"]);
    assert_eq!(similar_terms(&vec!["a".to_string()]), vec!["a"]);
    assert!(similar_terms(&vec![]).is_empty());
    assert_eq!(Query::Search("x".to_string()).limit(), 200);
    assert_eq!(Query::Similar("x".to_string()).limit(), 20);
}

#[test]
fn newest_request_wins() {
    let mut slot = SearchSlot::new();
    assert!(!slot.is_waiting());
    assert_eq!(slot.submit(1), None);
    assert_eq!(slot.submit(2), Some(1));
    assert_eq!(slot.submit(3), Some(2));
    assert_eq!(slot.take(), Some(3));
    assert_eq!(slot.take(), None);
}

#[test]
fn cache_evicts_least_recently_used() {
    let mut cache: Cache<NoteSearch, Vec<NoteId>> = Cache::new(2);
    let a = NoteSearch::new();
    let b = NoteSearch::new().task_only(true);
    let c = NoteSearch::new().subject(SubjectId(1));
    cache.insert(a, vec![NoteId(1)]);
    cache.insert(b, vec![NoteId(2)]);
    assert_eq!(cache.get(&a), Some(vec![NoteId(1)]));
    cache.insert(c, vec![NoteId(3)]);
    assert_eq!(cache.get(&b), None);
    assert_eq!(cache.get(&a), Some(vec![NoteId(1)]));
    assert_eq!(cache.invalidate_key(&c), Some(vec![NoteId(3)]));
    assert_eq!(cache.get(&c), None);
    cache.insert(a, vec![NoteId(9)]);
    assert_eq!(cache.get(&a), Some(vec![NoteId(9)]));
    assert_eq!(cache.remove_oldest(), Some(vec![NoteId(9)]));
    assert_eq!(cache.remove_oldest(), None);
    cache.insert(a, vec![]);
    cache.clear();
    assert_eq!(cache.get(&a), None);
}
