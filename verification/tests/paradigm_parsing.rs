use morph_app::paradigm::{parse_paradigm, tokenize_payload, unmarked_nominal_block, ParadigmFamily, ParseError};
use morph_app::quiz::normalize_answer;

#[test]
fn parses_nominal_table() {
    let payload = "#nom&ὁ ᾰ̓γών&τὼ ᾰ̓γῶνε&οἱ ᾰ̓γῶνες#gen&τοῦ ᾰ̓γῶνος&τοῖν ᾰ̓γώνοιν&τῶν ᾰ̓γώνων#dat&τῷ ᾰ̓γῶνῐ&τοῖν ᾰ̓γώνοιν&τοῖς ᾰ̓γῶσῐ(ν)#acc&τὸν ᾰ̓γῶνᾰ&τὼ ᾰ̓γῶνε&τοὺς ᾰ̓γῶνᾰς#voc&ᾰ̓γών&ᾰ̓γῶνε&ᾰ̓γῶνες";
    let entry = parse_paradigm("ἀγών", payload).unwrap();
    assert_eq!(entry.family, ParadigmFamily::Nominal);
    assert_eq!(entry.tables.len(), 1);
    assert_eq!(entry.tables[0].columns.len(), 3);
    assert_eq!(entry.tables[0].rows.len(), 5);
}

#[test]
fn parses_gendered_nominal_and_derivatives() {
    let payload = "#nom&ᾰ̓γᾰθός&ᾰ̓γᾰθή&ᾰ̓γᾰθόν&ᾰ̓γᾰθώ&ᾰ̓γᾰθᾱ́&ᾰ̓γᾰθώ&ᾰ̓γᾰθοί&ᾰ̓γᾰθαί&ᾰ̓γᾰθᾰ́#gen&ᾰ̓γᾰθοῦ&ᾰ̓γᾰθῆς&ᾰ̓γᾰθοῦ&ᾰ̓γᾰθοῖν&ᾰ̓γᾰθαῖν&ᾰ̓γᾰθοῖν&ᾰ̓γᾰθῶν&ᾰ̓γᾰθῶν&ᾰ̓γᾰθῶν#dat&ᾰ̓γᾰθῷ&ᾰ̓γᾰθῇ&ᾰ̓γᾰθῷ&ᾰ̓γᾰθοῖν&ᾰ̓γᾰθαῖν&ᾰ̓γᾰθοῖν&ᾰ̓γᾰθοῖς&ᾰ̓γᾰθαῖς&ᾰ̓γᾰθοῖς#acc&ᾰ̓γᾰθόν&ᾰ̓γᾰθήν&ᾰ̓γᾰθόν&ᾰ̓γᾰθώ&ᾰ̓γᾰθᾱ́&ᾰ̓γᾰθώ&ᾰ̓γᾰθούς&ᾰ̓γᾰθᾱ́ς&ᾰ̓γᾰθᾰ́#voc&ᾰ̓γᾰθέ&ᾰ̓γᾰθή&ᾰ̓γᾰθόν&ᾰ̓γᾰθώ&ᾰ̓γᾰθᾱ́&ᾰ̓γᾰθώ&ᾰ̓γᾰθοί&ᾰ̓γᾰθαί&ᾰ̓γᾰθᾰ́#der&ᾰ̓γᾰθῶς&ᾰ̓γᾰθώτερος/ἀμείνων&ᾰ̓γᾰθώτᾰτος/ἄριστος";
    let entry = parse_paradigm("ἀγαθός", payload).unwrap();
    assert_eq!(entry.family, ParadigmFamily::GenderedNominal);
    assert_eq!(entry.tables.len(), 4);
    assert_eq!(entry.tables[0].columns.len(), 3);
    assert_eq!(entry.tables[3].kind, "derivatives");
    assert_eq!(entry.tables[3].rows[0].cells[1].alternatives.len(), 2);
}

#[test]
fn parses_verb_tables() {
    let payload = "#present#active#indicative&ἀγγέλλω&ἀγγέλλεις&ἀγγέλλει&ἀγγέλλετον&ἀγγέλλετον&ἀγγέλλομεν&ἀγγέλλετε&ἀγγέλλουσῐ(ν)#imperative&ἄγγελλε&ἀγγελλέτω&ἀγγέλλετον&ἀγγελλέτων&ἀγγέλλετε&ἀγγελλόντων#active#middle#infinitive&ἀγγέλλειν&ἀγγέλλεσθαι#participle&ἀγγέλλων&ἀγγελλόμενος&ἀγγέλλουσᾰ&ἀγγελλομένη&ἀγγέλλον&ἀγγελλόμενον";
    let entry = parse_paradigm("ἀγγέλλω", payload).unwrap();
    assert_eq!(entry.family, ParadigmFamily::Verb);
    assert_eq!(entry.tables.len(), 4);
    assert_eq!(entry.tables[0].rows.len(), 3);
    assert_eq!(entry.tables[1].rows.len(), 2);
    assert_eq!(entry.tables[2].kind, "infinitive");
    assert_eq!(entry.tables[3].kind, "participle");
}

#[test]
fn normalizes_diacritics_and_final_sigma() {
    assert_eq!(normalize_answer("ἄγγελλε"), "αγγελλε");
    assert_eq!(normalize_answer("λόγος"), "λογοσ");
    assert_eq!(normalize_answer("ΑΥΤΌΣ"), "αυτοσ");
}

#[test]
fn normalizes_slashy_markers_and_keeps_variant_headings() {
    let payload = "#present#epic#active#indicative&εἰμί&ἐσσί&ἐστί&ἐστόν&ἐστόν&εἰμέν&ἐστέ&εἰσί(ν)#imperfect/#epic#active#indicative&ἦα&ἔησθα&ἦεν&ἤστον&ἤστην&ἦμεν&ἦτε&ἦσαν";
    let entry = parse_paradigm("εἰμί", payload).unwrap();
    assert_eq!(entry.tables[0].heading, "Present | Epic | Active | Indicative");
    assert_eq!(entry.tables[1].heading, "Imperfect | Epic | Active | Indicative");
}

#[test]
fn keeps_title_and_payload() {
    let payload = "#nom&λόγος&λόγω&λόγοι";
    let entry = parse_paradigm("λόγος", payload).unwrap();
    assert_eq!(entry.title, "λόγος");
    assert_eq!(entry.raw_payload, payload);
    assert_eq!(entry.family.as_str(), "nominal");
    assert_eq!(entry.tables[0].heading, "Nominal paradigm");
    assert_eq!(entry.tables[0].rows[0].key, "nom");
    assert_eq!(entry.tables[0].rows[0].label, "N");
    assert_eq!(entry.tables[0].rows[0].cells[2].column_key, "pl");
    assert_eq!(entry.tables[0].rows[0].cells[2].value, "λόγοι");
}

#[test]
fn refuses_payload_without_blocks() {
    assert!(matches!(parse_paradigm("x", "#nom#gen"), Err(ParseError::NoBlocks)));
    assert!(matches!(parse_paradigm("x", ""), Err(ParseError::NoBlocks)));
}

#[test]
fn refuses_nominal_payload_without_case_block() {
    assert!(matches!(parse_paradigm("x", "#epic&a&b"), Err(ParseError::NoCaseBlock)));
}

#[test]
fn refuses_unsupported_cell_count() {
    let payload = "#nom&a&b&c&d&e&f&g&h&i&j&k&l&m";
    assert!(matches!(parse_paradigm("x", payload), Err(ParseError::UnsupportedCellCount(13))));
}

#[test]
fn refuses_case_row_with_extra_values_before_the_last() {
    let payload = "#nom&a&b&c&d#gen&e&f&g";
    match parse_paradigm("x", payload) {
        Err(ParseError::CaseValueCount(marker, expected, found)) => {
            assert_eq!(marker, "nom");
            assert_eq!(expected, 3);
            assert_eq!(found, 4);
        }
        other => panic!("unexpected result: {:?}", other),
    }
}

#[test]
fn refuses_verb_block_without_mood() {
    match parse_paradigm("x", "#present#active&a&b") {
        Err(ParseError::MissingMood(markers)) => assert_eq!(markers, "present#active"),
        other => panic!("unexpected result: {:?}", other),
    }
}

#[test]
fn refuses_indivisible_participle_block() {
    let payload = "#present#active#participle&a&b&c&d";
    assert!(matches!(parse_paradigm("x", payload), Err(ParseError::NotDivisible(4, 3))));
}

#[test]
fn refuses_nonfinite_block_without_voice_markers() {
    let payload = "#present#infinitive&a&b";
    assert!(matches!(parse_paradigm("x", payload), Err(ParseError::NoVoiceMarkers(2))));
}

#[test]
fn refuses_nonfinite_block_with_mismatched_voices() {
    let payload = "#present#passive#infinitive&a&b&c";
    assert!(matches!(parse_paradigm("x", payload), Err(ParseError::VoiceGroupMismatch(1, 3))));
}

#[test]
fn infers_middle_passive_voice() {
    let payload = "#present#middle#passive#infinitive&ἀγγέλλεσθαι";
    let entry = parse_paradigm("x", payload).unwrap();
    assert_eq!(entry.tables[0].heading, "Present | Middle/passive | Infinitive");
    assert_eq!(entry.tables[0].columns[0].key, "middle/passive");
    assert_eq!(entry.tables[0].rows[0].label, "Inf");
}

#[test]
fn lays_out_irregular_finite_block_by_slot() {
    let payload = "#aorist#active#indicative&a&b&c";
    let entry = parse_paradigm("x", payload).unwrap();
    let table = &entry.tables[0];
    assert_eq!(table.kind, "verb_irregular");
    assert_eq!(table.rows.len(), 3);
    assert_eq!(table.rows[2].key, "slot_3");
    assert_eq!(table.rows[2].label, "Slot 3");
    assert_eq!(table.rows[2].cells[0].value, "c");
}

#[test]
fn fills_missing_dual_with_dash_in_compact_layout() {
    let payload = "#present#active#indicative&a&b&c&d&e&f";
    let entry = parse_paradigm("x", payload).unwrap();
    let table = &entry.tables[0];
    assert_eq!(table.kind, "verb");
    assert_eq!(table.rows[0].cells[1].value, "-");
    assert_eq!(table.rows[0].cells[2].value, "d");
    assert_eq!(table.rows[2].cells[0].value, "c");
}

#[test]
fn variant_label_heads_following_group() {
    let payload = "#epic&x&y#nom&a&b&c#der&p&q, r";
    let entry = parse_paradigm("x", payload).unwrap();
    assert_eq!(entry.tables.len(), 2);
    assert_eq!(entry.tables[0].heading, "Epic x / y | Nominal paradigm");
    assert_eq!(entry.tables[1].heading, "Epic x / y derived forms");
    assert_eq!(entry.tables[1].rows[0].cells[1].alternatives, vec!["q".to_string(), "r".to_string()]);
}

#[test]
fn tokenizes_markers_before_blocks() {
    let blocks = tokenize_payload("#present/ #active#indicative& a & b ").unwrap();
    assert_eq!(blocks.len(), 1);
    assert_eq!(blocks[0].markers, vec!["present".to_string(), "active".to_string(), "indicative".to_string()]);
    assert_eq!(blocks[0].values, vec!["a".to_string(), "b".to_string()]);
}

#[test]
fn detects_unmarked_nominal_block() {
    assert!(unmarked_nominal_block("#nom&a&b&c#&d"));
    assert!(!unmarked_nominal_block("#&a&b&c"));
    assert!(!unmarked_nominal_block("#nom&a&b&c"));
    assert!(!unmarked_nominal_block("#present#indicative&a#&b"));
}
