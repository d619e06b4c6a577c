use std::collections::BTreeSet;

use morph_app::catalog::{
    build_quiz_rows, build_stem_view, ConstantCatalog, LoadedCell, LoadedColumn, LoadedParadigm, LoadedRow,
    LoadedTable,
};
use morph_app::db::{Database, DatabaseError};
use morph_app::filters::{build_filter_sections, filter_categories, matches_filters};
use morph_app::models::{FilterState, QuizRow, TagMap};
use morph_app::quiz::render_analysis;
use morph_app::records::{tables_from_records, CellRecord};

fn cell(id: i64, column: &str, value: &str) -> LoadedCell {
    LoadedCell { id, column_key: column.to_string(), display_value: value.to_string() }
}

fn column(key: &str, label: &str) -> LoadedColumn {
    LoadedColumn { key: key.to_string(), label: label.to_string() }
}

fn nominal_paradigm(id: i64, title: &str) -> LoadedParadigm {
    LoadedParadigm {
        id,
        title: title.to_string(),
        family: "nominal".to_string(),
        tables: vec![LoadedTable {
            kind: "nominal".to_string(),
            heading: "Nominal paradigm".to_string(),
            columns: vec![column("sg", "Singular"), column("du", "Dual"), column("pl", "Plural")],
            rows: vec![
                LoadedRow {
                    key: "nom".to_string(),
                    label: "Nominative".to_string(),
                    cells: vec![
                        cell(id * 100 + 1, "sg", &format!("ὁ {}", title)),
                        cell(id * 100 + 2, "du", "τὼ x"),
                        cell(id * 100 + 3, "pl", "οἱ y"),
                    ],
                },
                LoadedRow {
                    key: "gen".to_string(),
                    label: "Genitive".to_string(),
                    cells: vec![cell(id * 100 + 4, "sg", "τοῦ z"), cell(id * 100 + 6, "pl", "τῶν w")],
                },
            ],
        }],
    }
}

#[test]
fn strips_leading_articles_from_nominal_quiz_forms() {
    let paradigm = LoadedParadigm {
        id: 1,
        title: "βίος".to_string(),
        family: "nominal".to_string(),
        tables: vec![LoadedTable {
            kind: "nominal".to_string(),
            heading: "Nominal paradigm".to_string(),
            columns: vec![LoadedColumn { key: "sg".to_string(), label: "Singular".to_string() }],
            rows: vec![LoadedRow {
                key: "nom".to_string(),
                label: "Nominative".to_string(),
                cells: vec![LoadedCell {
                    id: 10,
                    column_key: "sg".to_string(),
                    display_value: "ὁ βίος".to_string(),
                }],
            }],
        }],
    };

    let mut catalog = ConstantCatalog::default();
    let rows = build_quiz_rows(&paradigm, &mut catalog);

    assert_eq!(rows.len(), 1);
    assert_eq!(rows[0].form, "βίος");
}

#[test]
fn renders_gender_for_participle_quiz_rows() {
    let paradigm = LoadedParadigm {
        id: 2,
        title: "αἰσθάνομαι".to_string(),
        family: "verb".to_string(),
        tables: vec![LoadedTable {
            kind: "participle".to_string(),
            heading: "Present | Middle | Participle".to_string(),
            columns: vec![LoadedColumn { key: "middle".to_string(), label: "Middle".to_string() }],
            rows: vec![LoadedRow {
                key: "masc".to_string(),
                label: "Masculine".to_string(),
                cells: vec![LoadedCell {
                    id: 20,
                    column_key: "middle".to_string(),
                    display_value: "αἰσθανόμενος".to_string(),
                }],
            }],
        }],
    };

    let mut catalog = ConstantCatalog::default();
    let rows = build_quiz_rows(&paradigm, &mut catalog);
    let analysis = render_analysis(&rows[0], &catalog.constants);

    assert!(analysis.contains("Masc"));
    assert!(analysis.contains("Participle"));
}

#[test]
fn skips_dual_cells_and_records_constants_once() {
    let paradigm = nominal_paradigm(3, "λόγος");
    let mut catalog = ConstantCatalog::default();
    let rows = build_quiz_rows(&paradigm, &mut catalog);
    assert_eq!(rows.len(), 4);
    assert_eq!(rows[0].form, "λόγος");
    assert_eq!(rows[1].form, "y");
    let before = catalog.constants.items.len();
    let again = build_quiz_rows(&paradigm, &mut catalog);
    assert_eq!(again.len(), 4);
    assert_eq!(catalog.constants.items.len(), before);
    for (k, c) in catalog.constants.items.iter().enumerate() {
        assert_eq!(c.id, k as i64 + 1);
    }
}

#[test]
fn ensure_returns_the_same_id_twice() {
    let mut catalog = ConstantCatalog::default();
    let a = catalog.ensure("case", "nominative", "Nominative");
    let b = catalog.ensure("case", "genitive", "Genitive");
    let c = catalog.ensure("case", "nominative", "Nom");
    assert_eq!(a, 1);
    assert_eq!(b, 2);
    assert_eq!(c, 1);
    assert_eq!(catalog.next_id, 3);
    assert_eq!(catalog.constants.items[0].display_label, "Nominative");
}

#[test]
fn stem_view_drops_dual_columns() {
    let paradigm = nominal_paradigm(4, "λόγος");
    let view = build_stem_view(&paradigm);
    assert_eq!(view.lemma, "λόγος");
    assert_eq!(view.common_tags, vec!["Nominal".to_string()]);
    assert!(view.stemtypes.is_empty());
    assert_eq!(view.tables.len(), 1);
    assert_eq!(view.tables[0].heading, vec!["Nominal paradigm".to_string()]);
    assert_eq!(view.tables[0].columns, vec!["sg".to_string(), "pl".to_string()]);
    assert_eq!(view.tables[0].rows[0].label, "N");
    assert_eq!(view.tables[0].rows[0].cells, vec!["ὁ λόγος".to_string(), "οἱ y".to_string()]);
}

fn database() -> Database {
    let paradigms = vec![nominal_paradigm(5, "λόγος"), nominal_paradigm(6, "Ἄνθρωπος"), nominal_paradigm(7, "βίος")];
    Database::from_paradigms(&paradigms).unwrap()
}

#[test]
fn builds_sections_in_display_order() {
    let db = database();
    let sections = db.load_filter_sections().unwrap();
    let keys: Vec<&str> = sections.iter().map(|s| s.key.as_str()).collect();
    assert_eq!(keys, vec!["case", "number"]);
    assert_eq!(sections[0].title, "Case");
    let labels: Vec<&str> = sections[0].options.iter().map(|c| c.label.as_str()).collect();
    assert_eq!(labels, vec!["nom", "gen"]);
    let categories = filter_categories(&db.rows);
    assert!(categories.iter().any(|c| c == "part_of_speech"));
    assert_eq!(categories[0], "part_of_speech");
}

#[test]
fn empty_filters_match_every_row() {
    let db = database();
    let filters = FilterState::new();
    for row in &db.rows {
        assert!(matches_filters(row, &filters, None, false));
    }
    let rows = db.load_candidate_rows(&filters, 100).unwrap();
    assert_eq!(rows.len(), db.rows.len());
}

#[test]
fn lemma_selection_restricts_rows() {
    let db = database();
    let mut filters = FilterState::new();
    filters.toggle_lemma(6);
    let rows = db.load_candidate_rows(&filters, 100).unwrap();
    assert_eq!(rows.len(), 4);
    assert!(rows.iter().all(|r| r.lemma_id == 6));
    let limited = db.load_candidate_rows(&filters, 2).unwrap();
    assert_eq!(limited.len(), 2);
    let options = db.load_lemma_options(&filters).unwrap();
    assert_eq!(options.len(), 3);
}

#[test]
fn lemma_options_sorted_by_lowercase_label() {
    let db = database();
    let options = db.load_lemma_options(&FilterState::new()).unwrap();
    let labels: Vec<&str> = options.iter().map(|o| o.label.as_str()).collect();
    assert_eq!(labels, vec!["βίος", "λόγος", "Ἄνθρωπος"]);
}

#[test]
fn availability_ignores_own_category() {
    let db = database();
    let sections = db.load_filter_sections().unwrap();
    let case_section = &sections[0];
    let nom = case_section.options[0].id;
    let gen = case_section.options[1].id;
    let mut filters = FilterState::new();
    filters.toggle_constant("case", nom);
    assert!(filters.is_selected("case", nom));
    let availability = db.load_filter_availability(&filters, &sections).unwrap();
    assert_eq!(availability.len(), 2);
    assert_eq!(availability[0].0, "case");
    assert_eq!(availability[0].1, BTreeSet::from([nom, gen]));
    let rows = db.load_candidate_rows(&filters, 100).unwrap();
    assert_eq!(rows.len(), 6);
}

#[test]
fn toggling_a_constant_twice_restores_the_selection() {
    let mut filters = FilterState::new();
    filters.toggle_constant("case", 3);
    filters.toggle_constant("case", 4);
    assert!(filters.is_selected("case", 3) && filters.is_selected("case", 4));
    filters.toggle_constant("case", 3);
    assert!(!filters.is_selected("case", 3));
    filters.toggle_constant("case", 4);
    assert!(filters.selected_constants().is_empty());
    filters.toggle_lemma(9);
    filters.toggle_lemma(9);
    assert!(filters.selected_lemma_ids().is_empty());
}

#[test]
fn stem_view_lookup_by_lemma_id() {
    let db = database();
    let view = db.load_stem_view(6).unwrap().unwrap();
    assert_eq!(view.lemma, "Ἄνθρωπος");
    assert!(db.load_stem_view(99).unwrap().is_none());
    let constants = db.load_constants().unwrap();
    assert_eq!(constants.items.len(), db.constants.items.len());
}

#[test]
fn later_paradigm_with_same_id_replaces_stem_view() {
    let paradigms = vec![nominal_paradigm(5, "λόγος"), nominal_paradigm(5, "βίος")];
    let db = Database::from_paradigms(&paradigms).unwrap();
    assert_eq!(db.stem_views.len(), 1);
    assert_eq!(db.load_stem_view(5).unwrap().unwrap().lemma, "βίος");
    assert!(!matches!(Database::from_paradigms(&[]), Err(DatabaseError::TooManyConstants)));
}

#[test]
fn builds_sections_from_rows_directly() {
    let db = database();
    let sections = build_filter_sections(&db.constants, &db.rows);
    assert_eq!(sections.len(), 2);
    let empty: Vec<QuizRow> = Vec::new();
    assert!(build_filter_sections(&db.constants, &empty).is_empty());
    let mut tags = TagMap::new();
    tags.insert("case", 1);
    tags.insert("case", 2);
    assert_eq!(tags.get("case"), Some(2));
    assert_eq!(tags.entries.len(), 1);
}

fn record(table: i64, row: i64, row_key: &str, column_key: &str, raw: &str, alternatives: &str) -> CellRecord {
    CellRecord {
        table_id: table,
        table_kind: "nominal".to_string(),
        heading: format!("Table {}", table),
        row_id: row,
        row_key: row_key.to_string(),
        row_label: row_key.to_uppercase(),
        cell_id: table * 100 + row * 10,
        column_key: column_key.to_string(),
        column_label: column_key.to_uppercase(),
        alternatives: alternatives.to_string(),
        raw_value: raw.to_string(),
    }
}

#[test]
fn groups_records_into_tables_rows_and_columns() {
    let records = vec![
        record(1, 1, "nom", "sg", "a", "a / b"),
        record(1, 1, "nom", "pl", "c", ""),
        record(1, 2, "gen", "sg", "", ""),
        record(1, 2, "gen", "pl", "d", "d"),
        record(2, 3, "nom", "sg", "e", ""),
    ];
    let tables = tables_from_records(&records);
    assert_eq!(tables.len(), 2);
    assert_eq!(tables[0].heading, "Table 1");
    assert_eq!(tables[0].columns.len(), 2);
    assert_eq!(tables[0].columns[1].label, "PL");
    assert_eq!(tables[0].rows.len(), 2);
    assert_eq!(tables[0].rows[0].cells[0].display_value, "a / b");
    assert_eq!(tables[0].rows[1].cells[0].display_value, "-");
    assert_eq!(tables[0].rows[1].cells[1].display_value, "d");
    assert_eq!(tables[1].rows.len(), 1);
    assert!(tables_from_records(&[]).is_empty());
}

#[test]
fn catalogue_keeps_old_constants_and_rows_name_their_constants() {
    let mut catalog = ConstantCatalog::default();
    let first = build_quiz_rows(&nominal_paradigm(5, "λόγος"), &mut catalog);
    let before: Vec<(i64, String, String)> = catalog
        .constants
        .items
        .iter()
        .map(|c| (c.id, c.category.clone(), c.label.clone()))
        .collect();
    let second = build_quiz_rows(&nominal_paradigm(6, "βίος"), &mut catalog);
    for (k, c) in before.iter().enumerate() {
        let now = &catalog.constants.items[k];
        assert_eq!((now.id, now.category.clone(), now.label.clone()), c.clone());
    }
    for row in first.iter().chain(second.iter()) {
        for (category, id) in &row.constant_ids.entries {
            let c = catalog.constants.items.iter().find(|c| c.id == *id).expect("a constant");
            assert_eq!(&c.category, category);
        }
        let pos = row.constant_ids.get("part_of_speech").expect("part of speech");
        assert_eq!(catalog.constants.items[(pos - 1) as usize].label, "nominal");
        let ty = row.constant_ids.get("type").expect("type");
        assert_eq!(catalog.constants.items[(ty - 1) as usize].category, "type");
    }
}

#[test]
fn built_constants_are_numbered_in_order() {
    let db = database();
    let constants = db.load_constants().unwrap();
    for (k, c) in constants.items.iter().enumerate() {
        assert_eq!(c.id, k as i64 + 1);
        assert_eq!(c.sort_order, morph_app::tags::sort_order_for(&c.category, &c.label));
    }
}

#[test]
fn section_options_are_of_their_category_and_in_order() {
    let db = database();
    for section in db.load_filter_sections().unwrap() {
        assert_eq!(section.title, morph_app::tags::title_case_identifier(&section.key));
        for option in &section.options {
            assert_eq!(option.category, section.key);
        }
        for pair in section.options.windows(2) {
            assert!(pair[0].sort_order <= pair[1].sort_order);
            assert_ne!(pair[0].label, pair[1].label);
        }
    }
}

#[test]
fn toggling_a_constant_twice_restores_the_filters() {
    let mut filters = FilterState::new();
    filters.toggle_constant("case", 3);
    filters.toggle_constant("number", 7);
    filters.toggle_constant("case", 4);
    filters.toggle_constant("case", 3);
    assert!(!filters.is_selected("case", 3));
    assert!(filters.is_selected("case", 4));
    filters.toggle_constant("case", 3);
    assert!(filters.is_selected("case", 3) && filters.is_selected("case", 4) && filters.is_selected("number", 7));
    filters.toggle_constant("number", 7);
    filters.toggle_constant("number", 7);
    assert!(filters.is_selected("number", 7));
    assert_eq!(filters.selected_constants().len(), 2);
}

#[test]
fn filters_are_made_only_without_repeated_or_empty_categories() {
    let one: BTreeSet<i64> = [1].into_iter().collect();
    let made = FilterState::from_entries(vec![("case".to_string(), one.clone())], BTreeSet::new());
    assert!(made.expect("well formed").is_selected("case", 1));
    let twice = vec![("case".to_string(), one.clone()), ("case".to_string(), one.clone())];
    assert!(FilterState::from_entries(twice, BTreeSet::new()).is_none());
    let empty = vec![("case".to_string(), BTreeSet::new())];
    assert!(FilterState::from_entries(empty, BTreeSet::new()).is_none());
}

#[test]
fn each_row_is_typed_by_its_own_table() {
    let mut paradigm = nominal_paradigm(8, "ἀγών");
    let mut second = nominal_paradigm(9, "x").tables.remove(0);
    second.kind = "gendered_nominal".to_string();
    second.heading = "Gendered".to_string();
    for row in second.rows.iter_mut() {
        for cell in row.cells.iter_mut() {
            cell.id += 50;
        }
    }
    paradigm.tables.push(second);
    let mut catalog = ConstantCatalog::default();
    let rows = build_quiz_rows(&paradigm, &mut catalog);
    for row in &rows {
        let ty = row.constant_ids.get("type").expect("type");
        let label = &catalog.constants.items[(ty - 1) as usize].label;
        let from_second = row.inflection_id % 100 > 50;
        let expected = morph_app::tags::table_type_canonical(if from_second { "gendered_nominal" } else { "nominal" });
        assert_eq!(label, expected);
    }
}
