use morph_app::catalog::{build_quiz_rows, ConstantCatalog, LoadedCell, LoadedColumn, LoadedParadigm, LoadedRow, LoadedTable};
use morph_app::models::{
    ConstantTable, GrammarConstant, LemmaAttributes, Question, QuizMode, QuizRow, SessionStats, TagMap,
};
use morph_app::quiz::{
    deaccent_greek, deaccent_greek_string, generate_question, is_correct_text_answer, lemma_matches_search,
    levenshtein, normalize_answer, random_order, render_analysis, render_tag_pairs, similarity_score,
    sort_by_lowercase, tag_diff_count,
};
use morph_app::tags::{
    canonical_from_key, category_rank, combine_cell_values, display_from_category, family_canonical,
    family_display, is_greek_article, normalize_greek_token, normalize_voice, sanitize_quiz_form,
    shorten_axis_label, sort_order_for, split_heading, strip_leading_article, strip_marks_lowercase, table_type_canonical,
    table_type_display, title_case_identifier,
};
use morph_app::text::{decimal_string, join_strings, prefixed_count, str_contains, title_case_str, trim_str};

fn constant(id: i64, category: &str, label: &str, display: &str) -> GrammarConstant {
    GrammarConstant {
        id,
        category: category.to_string(),
        label: label.to_string(),
        display_label: display.to_string(),
        sort_order: 0,
    }
}

fn row(inflection_id: i64, lemma_id: i64, form: &str, tags: &[(&str, i64)]) -> QuizRow {
    let mut constant_ids = TagMap::new();
    for (k, v) in tags {
        constant_ids.insert(k, *v);
    }
    QuizRow {
        inflection_id,
        lemma_id,
        lemma: format!("lemma{}", lemma_id),
        form: form.to_string(),
        constant_ids,
        lemma_attributes: LemmaAttributes::new(),
    }
}

fn table(items: Vec<GrammarConstant>) -> ConstantTable {
    ConstantTable { items }
}

#[test]
fn folds_greek_letters() {
    assert_eq!(deaccent_greek('ἄ'), Some('α'));
    assert_eq!(deaccent_greek('Ω'), Some('ω'));
    assert_eq!(deaccent_greek('Q'), Some('q'));
    assert_eq!(deaccent_greek('1'), None);
    assert_eq!(deaccent_greek_string("Ἄνθρωπος!"), "ανθρωπο");
    assert_eq!(deaccent_greek('ς'), None);
}

#[test]
fn normalizing_twice_changes_nothing() {
    for s in ["ἄγγελλε", "λόγος", " Ἀ γ ών ", "ΑΥΤΌΣ"] {
        let once = normalize_answer(s);
        assert_eq!(normalize_answer(&once), once);
    }
    assert_eq!(normalize_answer(" ἀ γών "), "αγων");
}

#[test]
fn edit_distance_values_and_laws() {
    assert_eq!(levenshtein("kitten", "sitting"), 3);
    assert_eq!(levenshtein("", "λόγος"), 5);
    assert_eq!(levenshtein("λόγος", "λόγος"), 0);
    assert_eq!(levenshtein("λόγος", "λόγοι"), levenshtein("λόγοι", "λόγος"));
    assert_eq!(levenshtein("λόγος", "λόγοι"), 1);
}

#[test]
fn counts_tag_differences() {
    assert_eq!(tag_diff_count("Nom • Sg", "Nom • Pl"), 1);
    assert_eq!(tag_diff_count("Nom • Sg", "Nom • Sg"), 0);
    assert_eq!(tag_diff_count("Nom • Sg • Masc", "Gen • Sg"), 2);
    assert_eq!(tag_diff_count("a", "b • c"), tag_diff_count("b • c", "a"));
}

#[test]
fn renders_person_and_number_together() {
    let constants = table(vec![
        constant(1, "tense", "present", "Present"),
        constant(2, "person", "1", "1"),
        constant(3, "number", "singular", "Singular"),
        constant(4, "mood", "indicative", "Indicative"),
    ]);
    let r = row(1, 1, "λύω", &[("number", 3), ("person", 2), ("tense", 1), ("mood", 4)]);
    let pairs = render_tag_pairs(&r, &constants);
    assert_eq!(
        pairs,
        vec![
            ("tense".to_string(), "Present".to_string()),
            ("mood".to_string(), "Indicative".to_string()),
            ("person_number".to_string(), "1s".to_string()),
        ]
    );
    assert_eq!(render_analysis(&r, &constants), "Present • Indicative • 1s");
}

#[test]
fn renders_number_alone() {
    let constants = table(vec![constant(5, "case", "nom", "Nominative"), constant(6, "number", "pl", "Plural")]);
    let r = row(1, 1, "λόγοι", &[("case", 5), ("number", 6)]);
    assert_eq!(render_analysis(&r, &constants), "Nominative • Plural");
}

#[test]
fn scores_similarity() {
    let a = row(1, 1, "a", &[("case", 1), ("number", 2)]);
    let b = row(2, 1, "b", &[("case", 1), ("number", 3)]);
    let c = row(3, 2, "c", &[("case", 4)]);
    assert_eq!(similarity_score(&a, &b), 8 + 2 * 6 + 4);
    assert_eq!(similarity_score(&a, &c), 2 * 5 + 4);
}

#[test]
fn sorts_by_lowercase_text() {
    let items = vec!["beta".to_string(), "Alpha".to_string(), "alpha".to_string(), "Gamma".to_string()];
    let sorted = sort_by_lowercase(&items);
    assert_eq!(sorted, vec!["Alpha".to_string(), "alpha".to_string(), "beta".to_string(), "Gamma".to_string()]);
}

#[test]
fn random_order_is_a_permutation() {
    let mut p = random_order(10);
    p.sort();
    assert_eq!(p, (0..10).collect::<Vec<usize>>());
}

fn verb_rows() -> (Vec<QuizRow>, ConstantTable) {
    let paradigm = LoadedParadigm {
        id: 9,
        title: "λύω".to_string(),
        family: "verb".to_string(),
        tables: vec![LoadedTable {
            kind: "verb".to_string(),
            heading: "Present | Active | Indicative".to_string(),
            columns: vec![
                LoadedColumn { key: "sg".to_string(), label: "Singular".to_string() },
                LoadedColumn { key: "du".to_string(), label: "Dual".to_string() },
                LoadedColumn { key: "pl".to_string(), label: "Plural".to_string() },
            ],
            rows: ["1", "2", "3"]
                .iter()
                .enumerate()
                .map(|(i, p)| LoadedRow {
                    key: p.to_string(),
                    label: p.to_string(),
                    cells: vec![
                        LoadedCell { id: (i * 3) as i64 + 1, column_key: "sg".to_string(), display_value: format!("λυ{}s", p) },
                        LoadedCell { id: (i * 3) as i64 + 2, column_key: "du".to_string(), display_value: "-".to_string() },
                        LoadedCell { id: (i * 3) as i64 + 3, column_key: "pl".to_string(), display_value: format!("λυ{}p", p) },
                    ],
                })
                .collect(),
        }],
    };
    let mut catalog = ConstantCatalog::default();
    let rows = build_quiz_rows(&paradigm, &mut catalog);
    (rows, catalog.constants)
}

#[test]
fn generates_typed_question_with_accepted_answer() {
    let (rows, constants) = verb_rows();
    assert_eq!(rows.len(), 6);
    let q = generate_question(&rows, &constants, QuizMode::InferForm).expect("a typed question");
    assert_eq!(q.lemma_id, 9);
    assert_eq!(q.mode, QuizMode::InferForm);
    assert!(q.clue.as_deref().unwrap().starts_with("Clue form: "));
    assert_eq!(q.accepted_text_answers.len(), 1);
    assert!(q.uses_text_entry());
    assert!(!q.is_answered());
    let answer = q.accepted_text_answers[0].clone();
    assert!(is_correct_text_answer(&q, &format!(" {} ", answer)));
    assert!(!is_correct_text_answer(&q, "nothing"));
}

#[test]
fn no_question_from_too_few_rows() {
    let (rows, constants) = verb_rows();
    assert!(generate_question(&rows[..5], &constants, QuizMode::InferForm).is_none());
    assert!(generate_question(&rows[..5], &constants, QuizMode::ParseForm).is_none());
}

#[test]
fn choice_question_has_one_correct_option_among_six() {
    let (rows, constants) = verb_rows();
    let q = generate_question(&rows, &constants, QuizMode::ParseForm).expect("a parse question");
    assert_eq!(q.mode, QuizMode::ParseForm);
    assert_eq!(q.options.len(), 6);
    assert_eq!(q.options.iter().filter(|o| q.is_correct(&o.id)).count(), 1);
    assert!(rows.iter().any(|r| r.form == q.prompt));
    let mut labels: Vec<&str> = q.options.iter().map(|o| o.label.as_str()).collect();
    labels.sort();
    labels.dedup();
    assert_eq!(labels.len(), 6);
    let b = generate_question(&rows, &constants, QuizMode::BuildForm).expect("a build question");
    assert_eq!(b.options.len(), 6);
    let correct = rows.iter().find(|r| format!("form:{}", r.inflection_id) == b.correct_option_ids[0]).unwrap();
    assert!(b.options.iter().any(|o| o.label == correct.form && q.is_correct(&q.correct_option_ids[0])));
    let mut forms: Vec<&str> = b.options.iter().map(|o| o.label.as_str()).collect();
    forms.sort();
    forms.dedup();
    assert_eq!(forms.len(), 6);
}

#[test]
fn question_knows_its_correct_options() {
    let q = Question {
        lemma_id: 1,
        mode: QuizMode::ParseForm,
        prompt: "λόγος".to_string(),
        clue: None,
        options: Vec::new(),
        correct_option_ids: vec!["parse:1".to_string()],
        selected_option_id: None,
        accepted_text_answers: Vec::new(),
        text_entry: String::new(),
        submitted_text: None,
    };
    assert!(q.is_correct("parse:1"));
    assert!(!q.is_correct("analysis:x"));
    assert!(!q.uses_text_entry());
    assert_eq!(QuizMode::ParseForm.label(), "Form -> analysis");
    assert_eq!(QuizMode::BuildForm.label(), "Analysis -> form");
    assert_eq!(QuizMode::InferForm.label(), "Form -> typed form");
}

#[test]
fn statistics_stay_consistent() {
    let mut s = SessionStats::new();
    assert_eq!(s.accuracy(), 0);
    s.register(true);
    s.register(true);
    s.register(false);
    s.register(true);
    assert_eq!((s.answered, s.correct, s.streak, s.best_streak), (4, 3, 1, 2));
    assert_eq!(s.accuracy(), 75);
}

#[test]
fn lemma_search_folds_case_and_accents() {
    assert!(lemma_matches_search("", "λόγος"));
    assert!(lemma_matches_search("ΛΟΓ", "λόγος"));
    assert!(lemma_matches_search("ανθ", "Ἄνθρωπος"));
    assert!(!lemma_matches_search("βιο", "λόγος"));
}

#[test]
fn tag_tables() {
    assert_eq!(family_canonical("gendered_nominal"), "gendered nominal");
    assert_eq!(family_canonical("x"), "unknown");
    assert_eq!(family_display("verb"), "Verb");
    assert_eq!(table_type_canonical("verb"), "finite");
    assert_eq!(table_type_display("nominal_irregular"), "Irregular nominal");
    assert_eq!(sort_order_for("tense", "aorist"), 3);
    assert_eq!(sort_order_for("case", "voc"), 4);
    assert_eq!(sort_order_for("gender", "common"), 3);
    assert_eq!(sort_order_for("mood", "x"), 99);
    assert_eq!(category_rank("part_of_speech"), 0);
    assert_eq!(category_rank("person"), 8);
    assert_eq!(category_rank("dialect"), 9);
    assert_eq!(normalize_voice("middle/passive", "x"), ("middle / passive".to_string(), "Middle / Passive".to_string()));
    assert_eq!(normalize_voice("other", "Fallback"), ("other".to_string(), "Fallback".to_string()));
}

#[test]
fn canonical_and_display_labels() {
    assert_eq!(canonical_from_key("case", " Nom ", "Nominative"), "nom");
    assert_eq!(canonical_from_key("case", "", " Genitive "), "genitive");
    assert_eq!(canonical_from_key("tense", "x", " Present "), "present");
    assert_eq!(display_from_category("number", "sg", "x"), "Singular");
    assert_eq!(display_from_category("gender", "feminine", "x"), "Fem");
    assert_eq!(display_from_category("voice", "active", "x"), "Active");
    assert_eq!(display_from_category("tense", "present", "Present"), "Present");
}

#[test]
fn axis_labels_and_titles() {
    assert_eq!(shorten_axis_label("Nominative"), "N");
    assert_eq!(shorten_axis_label("2nd"), "2");
    assert_eq!(shorten_axis_label("Something"), "Something");
    assert_eq!(title_case_identifier("part_of_speech"), "Part Of Speech");
    assert_eq!(title_case_str("ἀγών"), "Ἀγών");
    assert_eq!(split_heading(" Present |  | Active | Indicative "), vec!["Present".to_string(), "Active".to_string(), "Indicative".to_string()]);
}

#[test]
fn cell_values_without_repetition() {
    assert_eq!(combine_cell_values("a", "a, b/ c"), "a / b / c");
    assert_eq!(combine_cell_values(" ", "/"), "-");
}

#[test]
fn articles_are_stripped() {
    assert!(is_greek_article("τοῦ"));
    assert!(is_greek_article("«Ὁ»"));
    assert!(!is_greek_article("λόγος"));
    assert_eq!(normalize_greek_token("Τοῦ"), "του");
    assert_eq!(normalize_greek_token("«Ἡ»"), "η");
    assert_eq!(strip_leading_article(" ὁ λόγος "), "λόγος");
    assert_eq!(strip_leading_article("ὁ"), "ὁ");
    assert_eq!(sanitize_quiz_form("nominal", "ὁ λόγος / τὸ ἔργον"), "λόγος / ἔργον");
    assert_eq!(sanitize_quiz_form("verb", "ὁ λόγος"), "ὁ λόγος");
}

#[test]
fn text_helpers() {
    assert_eq!(trim_str("  a b  "), "a b");
    assert!(str_contains("λόγος", "όγ"));
    assert_eq!(join_strings(&["a".to_string(), "b".to_string()], " | "), "a | b");
    assert_eq!(decimal_string(-42), "-42");
    assert_eq!(prefixed_count("slot_", 12), "slot_12");
}

#[test]
fn strips_marks_and_lowercases_decomposed_text() {
    assert_eq!(strip_marks_lowercase("\u{391}\u{313}\u{301}\u{393}\u{3a9}\u{342}"), "αγω");
    assert_eq!(strip_marks_lowercase(""), "");
}
