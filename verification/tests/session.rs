use rusty_gematria::cipher::calculate;
use rusty_gematria::matrix::Matrix;
use rusty_gematria::phrase::build_tagged_words;
use rusty_gematria::session::{compute, ComputeResult, Session, DEBOUNCE_MS};

#[test]
fn new_session_queues_initial_text() {
    let s = Session::new(3, Some("andrei".to_string()));
    assert_eq!(s.input, "andrei");
    assert_eq!(s.input_version, 1);
    assert!(s.pending);
    let e = Session::new(3, None);
    assert_eq!(e.input, "");
    assert_eq!(e.input_version, 0);
    assert!(!e.pending);
    assert_eq!(DEBOUNCE_MS, 369);
}

#[test]
fn work_waits_for_the_pause() {
    let mut s = Session::new(3, None);
    s.edit("michael".to_string());
    assert_eq!(s.take_work(false), None);
    assert_eq!(s.take_work(true), Some((1, "michael".to_string())));
    assert_eq!(s.take_work(true), None);
}

#[test]
fn session_drops_stale_results() {
    let mut s = Session::new(3, None);
    s.edit("old".to_string());
    s.edit("michael".to_string());
    assert_eq!(s.input_version, 2);
    s.apply(ComputeResult { version: 1, results: vec![calculate("old")], matches: vec!["x".to_string()] });
    assert!(s.results.is_empty());
    assert!(s.matches.is_empty());
    assert_eq!(s.selected, None);
    s.apply(ComputeResult { version: 2, results: vec![calculate("michael")], matches: vec!["michael".to_string()] });
    assert_eq!(s.results[0].english, 306);
    assert_eq!(s.matches, vec!["michael".to_string()]);
    assert_eq!(s.selected, Some(0));
}

#[test]
fn select_moves_the_selection() {
    let mut s = Session::new(3, None);
    s.select(4);
    assert_eq!(s.selected, Some(4));
}

#[test]
fn compute_gives_phrases_and_matches() {
    let matrix = Matrix::build();
    let tagged = build_tagged_words();
    let r = compute(&matrix, &tagged, 3, 7, "michael andrei");
    assert_eq!(r.version, 7);
    let texts: Vec<&str> = r.results.iter().map(|g| g.original.as_str()).collect();
    assert_eq!(texts, vec!["michael", "michael andrei", "andrei"]);
    assert_eq!(r.results[0].english, 306);
    assert!(r.matches.iter().any(|m| m == "michael"));
    for m in &r.matches {
        if m.starts_with('[') {
            assert!(m.ends_with(']'));
            let inner = &m[1..m.len() - 1];
            let sum: u64 = inner.split(' ').map(|w| calculate(w).english).sum();
            assert_eq!(sum, 306);
        }
    }
    let empty = compute(&matrix, &tagged, 3, 8, "   ");
    assert!(empty.results.is_empty());
    assert!(empty.matches.is_empty());
}

#[test]
fn recompute_selects_first_row_and_finds_matches() {
    let matrix = Matrix::build();
    let tagged = build_tagged_words();
    let mut s = Session::new(2, Some("michael andrei".to_string()));
    s.recompute(&matrix, &tagged);
    let texts: Vec<&str> = s.results.iter().map(|g| g.original.as_str()).collect();
    assert_eq!(texts, vec!["michael", "michael andrei", "andrei"]);
    assert_eq!(s.selected, Some(0));
    assert!(s.matches.iter().any(|m| m == "michael"));
    s.edit("   ".to_string());
    s.recompute(&matrix, &tagged);
    assert!(s.results.is_empty());
    assert_eq!(s.selected, None);
    assert!(s.matches.is_empty());
}

#[test]
fn update_matches_follows_the_selection() {
    let matrix = Matrix::build();
    let tagged = build_tagged_words();
    let mut s = Session::new(3, Some("love michael".to_string()));
    s.recompute(&matrix, &tagged);
    let michael_row = s.results.iter().position(|g| g.original == "michael").unwrap();
    s.select(michael_row);
    s.update_matches(&matrix, &tagged);
    assert!(s.matches.iter().any(|m| m == "michael"));
    let before = s.matches.clone();
    s.select(99);
    s.update_matches(&matrix, &tagged);
    assert_eq!(s.matches, before);
}

#[test]
fn apply_all_keeps_the_last_current_result() {
    let mut s = Session::new(3, None);
    s.edit("old".to_string());
    s.edit("michael".to_string());
    let batch = vec![
        ComputeResult { version: 2, results: vec![calculate("first")], matches: vec!["a".to_string()] },
        ComputeResult { version: 1, results: vec![calculate("old")], matches: vec!["stale".to_string()] },
        ComputeResult { version: 2, results: vec![calculate("michael")], matches: vec!["michael".to_string()] },
        ComputeResult { version: 1, results: vec![], matches: vec![] },
    ];
    s.apply_all(batch);
    assert_eq!(s.results.len(), 1);
    assert_eq!(s.results[0].original, "michael");
    assert_eq!(s.matches, vec!["michael".to_string()]);
    assert_eq!(s.selected, Some(0));
}

#[test]
fn apply_all_of_stale_results_changes_nothing() {
    let mut s = Session::new(3, Some("x".to_string()));
    s.edit("y".to_string());
    s.apply_all(vec![ComputeResult { version: 1, results: vec![calculate("x")], matches: vec![] }]);
    assert!(s.results.is_empty());
    assert_eq!(s.selected, None);
    s.apply_all(Vec::new());
    assert!(s.results.is_empty());
}

#[test]
fn clicking_a_row_shows_its_matches() {
    let matrix = Matrix::build();
    let tagged = build_tagged_words();
    let mut s = Session::new(3, Some("love michael".to_string()));
    s.recompute(&matrix, &tagged);
    let row = s.results.iter().position(|g| g.original == "michael").unwrap();
    s.select_and_update(row, &matrix, &tagged);
    assert_eq!(s.selected, Some(row));
    assert!(s.matches.iter().any(|m| m == "michael"));
    let before = s.matches.clone();
    s.select_and_update(42, &matrix, &tagged);
    assert_eq!(s.selected, Some(42));
    assert_eq!(s.matches, before);
}
