use morph_app::catalog::{LoadedCell, LoadedColumn, LoadedParadigm, LoadedRow, LoadedTable};
use morph_app::db::Database;
use morph_app::models::{FilterState, QuizMode, SessionStats};
use morph_app::session::{Screen, Session, POOL_SIZE};

fn verb(id: i64, title: &str) -> LoadedParadigm {
    LoadedParadigm {
        id,
        title: title.to_string(),
        family: "verb".to_string(),
        tables: vec![LoadedTable {
            kind: "verb".to_string(),
            heading: "Present | Active | Indicative".to_string(),
            columns: vec![
                LoadedColumn { key: "sg".to_string(), label: "Singular".to_string() },
                LoadedColumn { key: "pl".to_string(), label: "Plural".to_string() },
            ],
            rows: ["1", "2", "3"]
                .iter()
                .enumerate()
                .map(|(i, p)| LoadedRow {
                    key: p.to_string(),
                    label: p.to_string(),
                    cells: vec![
                        LoadedCell { id: id * 10 + (i * 2) as i64, column_key: "sg".to_string(), display_value: format!("{}{}s", title, p) },
                        LoadedCell { id: id * 10 + (i * 2) as i64 + 1, column_key: "pl".to_string(), display_value: format!("{}{}p", title, p) },
                    ],
                })
                .collect(),
        }],
    }
}

fn session() -> Session {
    let db = Database::from_paradigms(&[verb(1, "λυ"), verb(2, "παιδευ")]).unwrap();
    Session::new(db, SessionStats::new(), Vec::new())
}

#[test]
fn starts_with_a_pool_and_a_question_view() {
    let s = session();
    assert_eq!(s.mode, QuizMode::ParseForm);
    assert_eq!(s.screen, Screen::Quiz);
    assert_eq!(s.pool.len(), 12);
    assert!(s.pool.len() <= POOL_SIZE);
    assert_eq!(s.lemma_options.len(), 2);
    let q = s.current_question.as_ref().expect("a question");
    let expected = if q.lemma_id == 1 { "λυ" } else { "παιδευ" };
    assert_eq!(s.stem_view.as_ref().unwrap().lemma, expected);
}

#[test]
fn typed_mode_answers_count_once() {
    let mut s = session();
    s.set_mode(QuizMode::InferForm);
    let q = s.current_question.as_ref().expect("a typed question").accepted_text_answers[0].clone();
    s.update_text_answer(format!("  {}  ", q));
    assert!(s.submit_text_answer());
    assert_eq!(s.stats.answered, 1);
    assert_eq!(s.stats.correct, 1);
    assert!(!s.submit_text_answer());
    assert_eq!(s.stats.answered, 1);
    s.update_text_answer("changed".to_string());
    assert_eq!(s.current_question.as_ref().unwrap().submitted_text.as_deref(), Some(q.as_str()));
    s.reset_stats();
    assert_eq!(s.stats.answered, 0);
}

#[test]
fn empty_typed_answer_is_not_submitted() {
    let mut s = session();
    s.set_mode(QuizMode::InferForm);
    s.update_text_answer("   ".to_string());
    assert!(!s.submit_text_answer());
    assert_eq!(s.stats.answered, 0);
}

#[test]
fn choosing_without_a_question_changes_nothing() {
    let mut s = session();
    s.current_question = None;
    assert!(!s.answer("x".to_string()));
    assert_eq!(s.stats.answered, 0);
}

#[test]
fn selecting_a_lemma_narrows_the_pool_and_shows_its_paradigm() {
    let mut s = session();
    s.toggle_lemma(2);
    assert_eq!(s.pool.len(), 6);
    assert!(s.pool.iter().all(|r| r.lemma_id == 2));
    assert_eq!(s.stem_view.as_ref().unwrap().lemma, "παιδευ");
    s.toggle_lemma(2);
    assert_eq!(s.pool.len(), 12);
    s.toggle_lemma(99);
    assert!(s.filters.selected_lemma_ids().is_empty());
}

#[test]
fn unavailable_selection_is_dropped() {
    let mut s = session();
    let number = s.filter_sections.iter().find(|sec| sec.key == "number").expect("number section");
    let sg = number.options[0].id;
    s.toggle_filter("number", sg);
    assert_eq!(s.pool.len(), 6);
    assert!(s.filters.is_selected("number", sg));
    s.toggle_filter("person", 12345);
    assert!(!s.filters.is_selected("person", 12345));
    assert!(!s.filters.is_selected("number", sg));
    assert!(s.filters.selected_constants().is_empty());
    s.toggle_filter("number", sg);
    s.clear_filters();
    assert!(s.filters.selected_constants().is_empty());
    assert_eq!(s.pool.len(), 12);
}

#[test]
fn presets_are_saved_sorted_and_loaded() {
    let mut s = session();
    s.toggle_lemma(1);
    s.preset_name_input = "  zeta ".to_string();
    assert!(s.save_current_preset());
    assert!(s.preset_name_input.is_empty());
    s.clear_filters();
    s.preset_name_input = "alpha".to_string();
    assert!(s.save_current_preset());
    let names: Vec<&str> = s.presets.iter().map(|(n, _)| n.as_str()).collect();
    assert_eq!(names, vec!["alpha", "zeta"]);
    s.preset_name_input = "   ".to_string();
    assert!(!s.save_current_preset());
    s.load_preset("zeta");
    assert!(s.filters.selected_lemma_ids().contains(&1));
    assert_eq!(s.pool.len(), 6);
    s.load_preset("missing");
    assert_eq!(s.pool.len(), 6);
    s.delete_preset("alpha");
    assert_eq!(s.presets.len(), 1);
    let copy: FilterState = s.presets[0].1.duplicate();
    assert!(copy.selected_lemma_ids().contains(&1));
}

#[test]
fn switching_screens_keeps_the_question() {
    let mut s = session();
    let before = s.current_question.as_ref().map(|q| q.prompt.clone());
    s.set_screen(Screen::Stems);
    assert_eq!(s.screen, Screen::Stems);
    assert_eq!(s.current_question.as_ref().map(|q| q.prompt.clone()), before);
    s.set_filter_drawer(true);
    assert!(s.filter_drawer_open);
    s.next_question();
    assert_eq!(s.pool.len(), 12);
}

#[test]
fn reloading_settled_filters_keeps_them() {
    let mut s = session();
    let number = s.filter_sections.iter().find(|sec| sec.key == "number").expect("number section");
    let sg = number.options[0].id;
    s.toggle_filter("number", sg);
    s.toggle_lemma(1);
    let before: Vec<(String, Vec<i64>)> = s
        .filters
        .selected_constants()
        .iter()
        .map(|(k, v)| (k.clone(), v.iter().copied().collect()))
        .collect();
    let lemmas = s.filters.selected_lemma_ids().clone();
    s.reload_questions();
    let after: Vec<(String, Vec<i64>)> = s
        .filters
        .selected_constants()
        .iter()
        .map(|(k, v)| (k.clone(), v.iter().copied().collect()))
        .collect();
    assert_eq!(before, after);
    assert_eq!(&lemmas, s.filters.selected_lemma_ids());
    assert_eq!(s.pool.len(), 3);
}
