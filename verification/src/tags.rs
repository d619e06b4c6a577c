//! Classification of the labels found in paradigm tables: canonical names,
//! display names, sort positions, and the clean-up of cell values and forms.
use unicode_normalization::UnicodeNormalization;
use vstd::prelude::*;

use crate::text::{
    chars_of, join_by, join_strings, split_by, split_chars, split_chars_on, split_set, str_eq,
    string_from_str, title_case, title_case_str, to_lowercase, trim, trim_chars, trim_set, trim_str,
    unicode_lowercase, CharSet,
};

verus! {

/// The canonical part-of-speech name of a paradigm family.
pub open spec fn family_canonical_of(family: Seq<char>) -> Seq<char> {
    if family == "nominal"@ {
        "nominal"@
    } else if family == "gendered_nominal"@ {
        "gendered nominal"@
    } else if family == "verb"@ {
        "verb"@
    } else {
        "unknown"@
    }
}

/// The canonical part-of-speech name of a paradigm family.
pub fn family_canonical(family: &str) -> (r: &'static str)
    ensures
        r@ == family_canonical_of(family@),
{
    if str_eq(family, "nominal") {
        "nominal"
    } else if str_eq(family, "gendered_nominal") {
        "gendered nominal"
    } else if str_eq(family, "verb") {
        "verb"
    } else {
        "unknown"
    }
}

/// The displayed part-of-speech name of a paradigm family.
pub open spec fn family_display_of(family: Seq<char>) -> Seq<char> {
    if family == "nominal"@ {
        "Nominal"@
    } else if family == "gendered_nominal"@ {
        "Gendered nominal"@
    } else if family == "verb"@ {
        "Verb"@
    } else {
        "Unknown"@
    }
}

/// The displayed part-of-speech name of a paradigm family.
pub fn family_display(family: &str) -> (r: &'static str)
    ensures
        r@ == family_display_of(family@),
{
    if str_eq(family, "nominal") {
        "Nominal"
    } else if str_eq(family, "gendered_nominal") {
        "Gendered nominal"
    } else if str_eq(family, "verb") {
        "Verb"
    } else {
        "Unknown"
    }
}

/// The canonical type name of a table kind.
pub open spec fn table_type_canonical_of(kind: Seq<char>) -> Seq<char> {
    if kind == "verb"@ {
        "finite"@
    } else if kind == "infinitive"@ {
        "infinitive"@
    } else if kind == "participle"@ {
        "participle"@
    } else if kind == "nominal"@ {
        "nominal"@
    } else if kind == "gendered_nominal"@ {
        "gendered nominal"@
    } else if kind == "derivatives"@ {
        "derived forms"@
    } else if kind == "verb_irregular"@ {
        "irregular verb"@
    } else if kind == "nominal_irregular"@ {
        "irregular nominal"@
    } else {
        "other"@
    }
}

/// The canonical type name of a table kind.
pub fn table_type_canonical(kind: &str) -> (r: &'static str)
    ensures
        r@ == table_type_canonical_of(kind@),
{
    if str_eq(kind, "verb") {
        "finite"
    } else if str_eq(kind, "infinitive") {
        "infinitive"
    } else if str_eq(kind, "participle") {
        "participle"
    } else if str_eq(kind, "nominal") {
        "nominal"
    } else if str_eq(kind, "gendered_nominal") {
        "gendered nominal"
    } else if str_eq(kind, "derivatives") {
        "derived forms"
    } else if str_eq(kind, "verb_irregular") {
        "irregular verb"
    } else if str_eq(kind, "nominal_irregular") {
        "irregular nominal"
    } else {
        "other"
    }
}

/// The displayed type name of a table kind.
pub open spec fn table_type_display_of(kind: Seq<char>) -> Seq<char> {
    if kind == "verb"@ {
        "Finite"@
    } else if kind == "infinitive"@ {
        "Infinitive"@
    } else if kind == "participle"@ {
        "Participle"@
    } else if kind == "nominal"@ {
        "Nominal"@
    } else if kind == "gendered_nominal"@ {
        "Gendered nominal"@
    } else if kind == "derivatives"@ {
        "Derived forms"@
    } else if kind == "verb_irregular"@ {
        "Irregular verb"@
    } else if kind == "nominal_irregular"@ {
        "Irregular nominal"@
    } else {
        "Other"@
    }
}

/// The displayed type name of a table kind.
pub fn table_type_display(kind: &str) -> (r: &'static str)
    ensures
        r@ == table_type_display_of(kind@),
{
    if str_eq(kind, "verb") {
        "Finite"
    } else if str_eq(kind, "infinitive") {
        "Infinitive"
    } else if str_eq(kind, "participle") {
        "Participle"
    } else if str_eq(kind, "nominal") {
        "Nominal"
    } else if str_eq(kind, "gendered_nominal") {
        "Gendered nominal"
    } else if str_eq(kind, "derivatives") {
        "Derived forms"
    } else if str_eq(kind, "verb_irregular") {
        "Irregular verb"
    } else if str_eq(kind, "nominal_irregular") {
        "Irregular nominal"
    } else {
        "Other"
    }
}


/// The position of a canonical label within its category, for sorting; 99
/// for labels outside the known ones.
pub open spec fn sort_order_of(category: Seq<char>, canonical: Seq<char>) -> i64 {
    if category == "part_of_speech"@ {
        if canonical == "nominal"@ {
            0
        } else if canonical == "gendered nominal"@ {
            1
        } else if canonical == "verb"@ {
            2
        } else {
            99
        }
    } else if category == "type"@ {
        if canonical == "nominal"@ {
            0
        } else if canonical == "gendered nominal"@ {
            1
        } else if canonical == "finite"@ {
            2
        } else if canonical == "participle"@ {
            3
        } else if canonical == "infinitive"@ {
            4
        } else if canonical == "derived forms"@ {
            5
        } else if canonical == "irregular nominal"@ {
            6
        } else if canonical == "irregular verb"@ {
            7
        } else {
            99
        }
    } else if category == "tense"@ {
        if canonical == "present"@ {
            0
        } else if canonical == "imperfect"@ {
            1
        } else if canonical == "future"@ {
            2
        } else if canonical == "aorist"@ {
            3
        } else if canonical == "perfect"@ {
            4
        } else if canonical == "pluperfect"@ {
            5
        } else if canonical == "future perfect"@ {
            6
        } else {
            99
        }
    } else if category == "voice"@ {
        if canonical == "active"@ {
            0
        } else if canonical == "middle"@ {
            1
        } else if canonical == "passive"@ {
            2
        } else if canonical == "middle / passive"@ {
            3
        } else if canonical == "active / middle"@ {
            4
        } else {
            99
        }
    } else if category == "mood"@ {
        if canonical == "indicative"@ {
            0
        } else if canonical == "subjunctive"@ {
            1
        } else if canonical == "optative"@ {
            2
        } else if canonical == "imperative"@ {
            3
        } else if canonical == "infinitive"@ {
            4
        } else if canonical == "participle"@ {
            5
        } else {
            99
        }
    } else if category == "case"@ {
        if canonical == "nom"@ || canonical == "nominative"@ {
            0
        } else if canonical == "gen"@ || canonical == "genitive"@ {
            1
        } else if canonical == "dat"@ || canonical == "dative"@ {
            2
        } else if canonical == "acc"@ || canonical == "accusative"@ {
            3
        } else if canonical == "voc"@ || canonical == "vocative"@ {
            4
        } else {
            99
        }
    } else if category == "number"@ {
        if canonical == "sg"@ || canonical == "singular"@ {
            0
        } else if canonical == "du"@ || canonical == "dual"@ {
            1
        } else if canonical == "pl"@ || canonical == "plural"@ {
            2
        } else {
            99
        }
    } else if category == "gender"@ {
        if canonical == "masc"@ || canonical == "masculine"@ {
            0
        } else if canonical == "fem"@ || canonical == "feminine"@ {
            1
        } else if canonical == "neut"@ || canonical == "neuter"@ {
            2
        } else if canonical == "common"@ {
            3
        } else {
            99
        }
    } else if category == "person"@ {
        if canonical == "1"@ || canonical == "1st"@ {
            0
        } else if canonical == "2"@ || canonical == "2nd"@ {
            1
        } else if canonical == "3"@ || canonical == "3rd"@ {
            2
        } else {
            99
        }
    } else {
        99
    }
}

/// The position of a canonical label within its category (99 when unknown).
pub fn sort_order_for(category: &str, canonical: &str) -> (r: i64)
    ensures
        r == sort_order_of(category@, canonical@),
{
    if str_eq(category, "part_of_speech") {
        if str_eq(canonical, "nominal") {
            0
        } else if str_eq(canonical, "gendered nominal") {
            1
        } else if str_eq(canonical, "verb") {
            2
        } else {
            99
        }
    } else if str_eq(category, "type") {
        if str_eq(canonical, "nominal") {
            0
        } else if str_eq(canonical, "gendered nominal") {
            1
        } else if str_eq(canonical, "finite") {
            2
        } else if str_eq(canonical, "participle") {
            3
        } else if str_eq(canonical, "infinitive") {
            4
        } else if str_eq(canonical, "derived forms") {
            5
        } else if str_eq(canonical, "irregular nominal") {
            6
        } else if str_eq(canonical, "irregular verb") {
            7
        } else {
            99
        }
    } else if str_eq(category, "tense") {
        if str_eq(canonical, "present") {
            0
        } else if str_eq(canonical, "imperfect") {
            1
        } else if str_eq(canonical, "future") {
            2
        } else if str_eq(canonical, "aorist") {
            3
        } else if str_eq(canonical, "perfect") {
            4
        } else if str_eq(canonical, "pluperfect") {
            5
        } else if str_eq(canonical, "future perfect") {
            6
        } else {
            99
        }
    } else if str_eq(category, "voice") {
        if str_eq(canonical, "active") {
            0
        } else if str_eq(canonical, "middle") {
            1
        } else if str_eq(canonical, "passive") {
            2
        } else if str_eq(canonical, "middle / passive") {
            3
        } else if str_eq(canonical, "active / middle") {
            4
        } else {
            99
        }
    } else if str_eq(category, "mood") {
        if str_eq(canonical, "indicative") {
            0
        } else if str_eq(canonical, "subjunctive") {
            1
        } else if str_eq(canonical, "optative") {
            2
        } else if str_eq(canonical, "imperative") {
            3
        } else if str_eq(canonical, "infinitive") {
            4
        } else if str_eq(canonical, "participle") {
            5
        } else {
            99
        }
    } else if str_eq(category, "case") {
        if str_eq(canonical, "nom") || str_eq(canonical, "nominative") {
            0
        } else if str_eq(canonical, "gen") || str_eq(canonical, "genitive") {
            1
        } else if str_eq(canonical, "dat") || str_eq(canonical, "dative") {
            2
        } else if str_eq(canonical, "acc") || str_eq(canonical, "accusative") {
            3
        } else if str_eq(canonical, "voc") || str_eq(canonical, "vocative") {
            4
        } else {
            99
        }
    } else if str_eq(category, "number") {
        if str_eq(canonical, "sg") || str_eq(canonical, "singular") {
            0
        } else if str_eq(canonical, "du") || str_eq(canonical, "dual") {
            1
        } else if str_eq(canonical, "pl") || str_eq(canonical, "plural") {
            2
        } else {
            99
        }
    } else if str_eq(category, "gender") {
        if str_eq(canonical, "masc") || str_eq(canonical, "masculine") {
            0
        } else if str_eq(canonical, "fem") || str_eq(canonical, "feminine") {
            1
        } else if str_eq(canonical, "neut") || str_eq(canonical, "neuter") {
            2
        } else if str_eq(canonical, "common") {
            3
        } else {
            99
        }
    } else if str_eq(category, "person") {
        if str_eq(canonical, "1") || str_eq(canonical, "1st") {
            0
        } else if str_eq(canonical, "2") || str_eq(canonical, "2nd") {
            1
        } else if str_eq(canonical, "3") || str_eq(canonical, "3rd") {
            2
        } else {
            99
        }
    } else {
        99
    }
}


/// The canonical and displayed names of a voice label; other labels keep
/// `canonical` and take `fallback` as display name.
pub open spec fn voice_names(canonical: Seq<char>, fallback: Seq<char>) -> (Seq<char>, Seq<char>) {
    if canonical == "active"@ {
        ("active"@, "Active"@)
    } else if canonical == "middle"@ {
        ("middle"@, "Middle"@)
    } else if canonical == "passive"@ {
        ("passive"@, "Passive"@)
    } else if canonical == "middle/passive"@ || canonical == "middle / passive"@ {
        ("middle / passive"@, "Middle / Passive"@)
    } else if canonical == "active/middle"@ || canonical == "active / middle"@ {
        ("active / middle"@, "Active / Middle"@)
    } else {
        (canonical, fallback)
    }
}

/// The canonical and displayed names of a voice label.
pub fn normalize_voice(canonical: &str, fallback: &str) -> (r: (String, String))
    ensures
        (r.0@, r.1@) == voice_names(canonical@, fallback@),
{
    if str_eq(canonical, "active") {
        (string_from_str("active"), string_from_str("Active"))
    } else if str_eq(canonical, "middle") {
        (string_from_str("middle"), string_from_str("Middle"))
    } else if str_eq(canonical, "passive") {
        (string_from_str("passive"), string_from_str("Passive"))
    } else if str_eq(canonical, "middle/passive") || str_eq(canonical, "middle / passive") {
        (string_from_str("middle / passive"), string_from_str("Middle / Passive"))
    } else if str_eq(canonical, "active/middle") || str_eq(canonical, "active / middle") {
        (string_from_str("active / middle"), string_from_str("Active / Middle"))
    } else {
        (string_from_str(canonical), string_from_str(fallback))
    }
}

/// The position of a category in the filter order; categories outside it
/// come after all of them.
pub open spec fn category_rank_of(category: Seq<char>) -> nat {
    if category == "part_of_speech"@ {
        0
    } else if category == "type"@ {
        1
    } else if category == "tense"@ {
        2
    } else if category == "voice"@ {
        3
    } else if category == "mood"@ {
        4
    } else if category == "case"@ {
        5
    } else if category == "number"@ {
        6
    } else if category == "gender"@ {
        7
    } else if category == "person"@ {
        8
    } else {
        9
    }
}

/// The position of a category in the filter order (9 for other categories).
pub fn category_rank(category: &str) -> (r: usize)
    ensures
        r == category_rank_of(category@),
{
    if str_eq(category, "part_of_speech") {
        0
    } else if str_eq(category, "type") {
        1
    } else if str_eq(category, "tense") {
        2
    } else if str_eq(category, "voice") {
        3
    } else if str_eq(category, "mood") {
        4
    } else if str_eq(category, "case") {
        5
    } else if str_eq(category, "number") {
        6
    } else if str_eq(category, "gender") {
        7
    } else if str_eq(category, "person") {
        8
    } else {
        9
    }
}

/// Whether the labels of a category come from the keys of table rows and
/// columns.
pub open spec fn keyed_category(category: Seq<char>) -> bool {
    category == "case"@ || category == "number"@ || category == "gender"@ || category == "person"@
        || category == "voice"@
}

/// The canonical label of a table axis: its lowercased key for the keyed
/// categories, its lowercased label otherwise or when the key is empty.
pub open spec fn canonical_of(category: Seq<char>, key: Seq<char>, display_label: Seq<char>) -> Seq<char> {
    let normalized_key = unicode_lowercase(trim(key));
    if keyed_category(category) && normalized_key.len() > 0 {
        normalized_key
    } else {
        unicode_lowercase(trim(display_label))
    }
}

/// The canonical label of a table axis.
pub fn canonical_from_key(category: &str, key: &str, display_label: &str) -> (r: String)
    ensures
        r@ == canonical_of(category@, key@, display_label@),
{
    let trimmed_key = trim_str(key);
    let normalized_key = to_lowercase(trimmed_key.as_str());
    let keyed = str_eq(category, "case") || str_eq(category, "number") || str_eq(category, "gender")
        || str_eq(category, "person") || str_eq(category, "voice");
    if keyed && normalized_key.unicode_len() > 0 {
        normalized_key
    } else {
        let trimmed = trim_str(display_label);
        to_lowercase(trimmed.as_str())
    }
}

/// The displayed name of a canonical label in its category; `fallback` for
/// labels without a fixed name.
pub open spec fn display_of(category: Seq<char>, canonical: Seq<char>, fallback: Seq<char>) -> Seq<char> {
    if category == "number"@ {
        if canonical == "sg"@ || canonical == "singular"@ {
            "Singular"@
        } else if canonical == "du"@ || canonical == "dual"@ {
            "Dual"@
        } else if canonical == "pl"@ || canonical == "plural"@ {
            "Plural"@
        } else {
            fallback
        }
    } else if category == "case"@ {
        if canonical == "nom"@ || canonical == "nominative"@ {
            "Nominative"@
        } else if canonical == "gen"@ || canonical == "genitive"@ {
            "Genitive"@
        } else if canonical == "dat"@ || canonical == "dative"@ {
            "Dative"@
        } else if canonical == "acc"@ || canonical == "accusative"@ {
            "Accusative"@
        } else if canonical == "voc"@ || canonical == "vocative"@ {
            "Vocative"@
        } else {
            fallback
        }
    } else if category == "gender"@ {
        if canonical == "masc"@ || canonical == "masculine"@ {
            "Masc"@
        } else if canonical == "fem"@ || canonical == "feminine"@ {
            "Fem"@
        } else if canonical == "neut"@ || canonical == "neuter"@ {
            "Neut"@
        } else if canonical == "common"@ {
            "Common"@
        } else {
            fallback
        }
    } else if category == "voice"@ {
        voice_names(canonical, fallback).1
    } else {
        fallback
    }
}

/// The displayed name of a canonical label in its category.
pub fn display_from_category(category: &str, canonical: &str, fallback: &str) -> (r: String)
    ensures
        r@ == display_of(category@, canonical@, fallback@),
{
    if str_eq(category, "number") {
        if str_eq(canonical, "sg") || str_eq(canonical, "singular") {
            string_from_str("Singular")
        } else if str_eq(canonical, "du") || str_eq(canonical, "dual") {
            string_from_str("Dual")
        } else if str_eq(canonical, "pl") || str_eq(canonical, "plural") {
            string_from_str("Plural")
        } else {
            string_from_str(fallback)
        }
    } else if str_eq(category, "case") {
        if str_eq(canonical, "nom") || str_eq(canonical, "nominative") {
            string_from_str("Nominative")
        } else if str_eq(canonical, "gen") || str_eq(canonical, "genitive") {
            string_from_str("Genitive")
        } else if str_eq(canonical, "dat") || str_eq(canonical, "dative") {
            string_from_str("Dative")
        } else if str_eq(canonical, "acc") || str_eq(canonical, "accusative") {
            string_from_str("Accusative")
        } else if str_eq(canonical, "voc") || str_eq(canonical, "vocative") {
            string_from_str("Vocative")
        } else {
            string_from_str(fallback)
        }
    } else if str_eq(category, "gender") {
        if str_eq(canonical, "masc") || str_eq(canonical, "masculine") {
            string_from_str("Masc")
        } else if str_eq(canonical, "fem") || str_eq(canonical, "feminine") {
            string_from_str("Fem")
        } else if str_eq(canonical, "neut") || str_eq(canonical, "neuter") {
            string_from_str("Neut")
        } else if str_eq(canonical, "common") {
            string_from_str("Common")
        } else {
            string_from_str(fallback)
        }
    } else if str_eq(category, "voice") {
        normalize_voice(canonical, fallback).1
    } else {
        string_from_str(fallback)
    }
}

/// The short name of a lowercase axis label, if it has one.
pub open spec fn short_axis_name(lower: Seq<char>) -> Option<Seq<char>> {
    if lower == "1"@ || lower == "1st"@ {
        Some("1"@)
    } else if lower == "2"@ || lower == "2nd"@ {
        Some("2"@)
    } else if lower == "3"@ || lower == "3rd"@ {
        Some("3"@)
    } else if lower == "singular"@ {
        Some("sg"@)
    } else if lower == "dual"@ {
        Some("du"@)
    } else if lower == "plural"@ {
        Some("pl"@)
    } else if lower == "nominative"@ {
        Some("N"@)
    } else if lower == "genitive"@ {
        Some("G"@)
    } else if lower == "dative"@ {
        Some("D"@)
    } else if lower == "accusative"@ {
        Some("A"@)
    } else if lower == "vocative"@ {
        Some("V"@)
    } else if lower == "masculine"@ {
        Some("M"@)
    } else if lower == "feminine"@ {
        Some("F"@)
    } else if lower == "neuter"@ {
        Some("N"@)
    } else if lower == "infinitive"@ {
        Some("Inf"@)
    } else {
        None
    }
}

fn short_axis_name_exec(lower: &str) -> (r: Option<&'static str>)
    ensures
        match r { Some(x) => short_axis_name(lower@) == Some(x@), None => short_axis_name(lower@) is None },
{
    if str_eq(lower, "1") || str_eq(lower, "1st") {
        Some("1")
    } else if str_eq(lower, "2") || str_eq(lower, "2nd") {
        Some("2")
    } else if str_eq(lower, "3") || str_eq(lower, "3rd") {
        Some("3")
    } else if str_eq(lower, "singular") {
        Some("sg")
    } else if str_eq(lower, "dual") {
        Some("du")
    } else if str_eq(lower, "plural") {
        Some("pl")
    } else if str_eq(lower, "nominative") {
        Some("N")
    } else if str_eq(lower, "genitive") {
        Some("G")
    } else if str_eq(lower, "dative") {
        Some("D")
    } else if str_eq(lower, "accusative") {
        Some("A")
    } else if str_eq(lower, "vocative") {
        Some("V")
    } else if str_eq(lower, "masculine") {
        Some("M")
    } else if str_eq(lower, "feminine") {
        Some("F")
    } else if str_eq(lower, "neuter") {
        Some("N")
    } else if str_eq(lower, "infinitive") {
        Some("Inf")
    } else {
        None
    }
}


/// The short axis label shown in a table: a fixed abbreviation for the known
/// labels (compared in lowercase), the label itself otherwise.
pub open spec fn shortened_label(label: Seq<char>) -> Seq<char> {
    match short_axis_name(unicode_lowercase(label)) {
        Some(s) => s,
        None => label,
    }
}

/// The short form of a row or column label.
pub fn shorten_axis_label(label: &str) -> (r: String)
    ensures
        r@ == shortened_label(label@),
{
    let lower = to_lowercase(label);
    match short_axis_name_exec(lower.as_str()) {
        Some(s) => string_from_str(s),
        None => string_from_str(label),
    }
}

/// The title of a category: its `_`-separated words, each with an uppercase
/// first letter, joined with spaces.
pub open spec fn title_of_identifier(category: Seq<char>) -> Seq<char> {
    join_by(split_set(category, CharSet::Underscore).map_values(|p: Seq<char>| title_case(p)), " "@)
}

/// The title of a category name such as `part_of_speech`.
pub fn title_case_identifier(category: &str) -> (r: String)
    ensures
        r@ == title_of_identifier(category@),
{
    let v = chars_of(category);
    let parts = split_chars_on(v.as_slice(), CharSet::Underscore);
    let mut titled: Vec<String> = Vec::new();
    let mut i: usize = 0;
    while i < parts.len()
        invariant
            i <= parts@.len(),
            parts.deep_view() == split_set(category@, CharSet::Underscore),
            titled.deep_view() == parts.deep_view().map_values(|p: Seq<char>| title_case(p)).take(i as int),
        decreases parts@.len() - i,
    {
        let ghost before = titled.deep_view();
        let t = title_case_str(parts[i].as_str());
        titled.push(t);
        assert(titled.deep_view() =~= before.push(t@));
        i = i + 1;
        assert(titled.deep_view() =~= parts.deep_view().map_values(|p: Seq<char>| title_case(p)).take(i as int));
    }
    assert(parts.deep_view().map_values(|p: Seq<char>| title_case(p)).take(i as int) =~= parts.deep_view().map_values(|p: Seq<char>| title_case(p)));
    join_strings(titled.as_slice(), " ")
}

/// The trimmed pieces, leaving out those that are empty once trimmed.
pub open spec fn trimmed_pieces(parts: Seq<Seq<char>>) -> Seq<Seq<char>>
    decreases parts.len(),
{
    if parts.len() == 0 {
        Seq::empty()
    } else {
        let r = trimmed_pieces(parts.drop_last());
        if trim(parts.last()).len() > 0 {
            r.push(trim(parts.last()))
        } else {
            r
        }
    }
}

/// The pieces that are not empty.
pub open spec fn non_empty_pieces(parts: Seq<Seq<char>>) -> Seq<Seq<char>>
    decreases parts.len(),
{
    if parts.len() == 0 {
        Seq::empty()
    } else {
        let r = non_empty_pieces(parts.drop_last());
        if parts.last().len() > 0 {
            r.push(parts.last())
        } else {
            r
        }
    }
}

/// Trims each piece and keeps the non-empty ones.
pub fn trim_pieces(parts: &Vec<String>) -> (r: Vec<String>)
    ensures
        r.deep_view() == trimmed_pieces(parts.deep_view()),
{
    let mut out: Vec<String> = Vec::new();
    let mut i: usize = 0;
    assert(parts.deep_view().take(0) =~= Seq::<Seq<char>>::empty());
    while i < parts.len()
        invariant
            i <= parts@.len(),
            out.deep_view() == trimmed_pieces(parts.deep_view().take(i as int)),
        decreases parts@.len() - i,
    {
        assert(parts.deep_view().take(i + 1).drop_last() =~= parts.deep_view().take(i as int));
        let t = trim_str(parts[i].as_str());
        if t.unicode_len() > 0 {
            let ghost before = out.deep_view();
            out.push(t);
            assert(out.deep_view() =~= before.push(t@));
        }
        i = i + 1;
    }
    assert(parts.deep_view().take(i as int) =~= parts.deep_view());
    out
}

/// Keeps the non-empty pieces.
pub fn keep_non_empty(parts: &Vec<String>) -> (r: Vec<String>)
    ensures
        r.deep_view() == non_empty_pieces(parts.deep_view()),
{
    let mut out: Vec<String> = Vec::new();
    let mut i: usize = 0;
    assert(parts.deep_view().take(0) =~= Seq::<Seq<char>>::empty());
    while i < parts.len()
        invariant
            i <= parts@.len(),
            out.deep_view() == non_empty_pieces(parts.deep_view().take(i as int)),
        decreases parts@.len() - i,
    {
        assert(parts.deep_view().take(i + 1).drop_last() =~= parts.deep_view().take(i as int));
        if parts[i].unicode_len() > 0 {
            let ghost before = out.deep_view();
            let t = parts[i].clone();
            out.push(t);
            assert(out.deep_view() =~= before.push(t@));
        }
        i = i + 1;
    }
    assert(parts.deep_view().take(i as int) =~= parts.deep_view());
    out
}

/// The separator between the parts of a table heading.
pub open spec fn heading_separator() -> Seq<char> {
    " | "@
}

/// The parts of a table heading: the pieces between ` | `, trimmed, empty
/// ones left out.
pub open spec fn heading_parts(heading: Seq<char>) -> Seq<Seq<char>> {
    trimmed_pieces(split_by(heading, heading_separator()))
}

/// The parts of a table heading.
pub fn split_heading(heading: &str) -> (r: Vec<String>)
    ensures
        r.deep_view() == heading_parts(heading@),
{
    let sep = chars_of(" | ");
    proof {
        reveal_strlit(" | ");
    }
    let v = chars_of(heading);
    let parts = split_chars(v.as_slice(), sep.as_slice());
    trim_pieces(&parts)
}

/// The alternatives written in a cell: the pieces between commas and
/// slashes, trimmed, empty ones left out.
pub open spec fn cell_candidates(source: Seq<char>) -> Seq<Seq<char>> {
    trimmed_pieces(split_set(source, CharSet::CommaOrSlash))
}

/// `values` followed by the candidates of `source` that it does not hold yet.
pub open spec fn with_unique_values(values: Seq<Seq<char>>, source: Seq<char>) -> Seq<Seq<char>> {
    values + crate::quiz::fresh_items(cell_candidates(source), values)
}

/// Appends the alternatives written in `source` that `values` does not hold.
pub fn push_unique_values(values: &mut Vec<String>, source: &str)
    ensures
        final(values).deep_view() == with_unique_values(old(values).deep_view(), source@),
{
    let ghost start = values.deep_view();
    let v = chars_of(source);
    let pieces = split_chars_on(v.as_slice(), CharSet::CommaOrSlash);
    let cands = trim_pieces(&pieces);
    let ghost cs = cands.deep_view();
    let mut i: usize = 0;
    assert(cs.take(0) =~= Seq::<Seq<char>>::empty());
    assert(values.deep_view() =~= start + crate::quiz::fresh_items(cs.take(0), start));
    while i < cands.len()
        invariant
            i <= cands@.len(),
            cs == cands.deep_view(),
            cs == cell_candidates(source@),
            start == old(values).deep_view(),
            values.deep_view() == start + crate::quiz::fresh_items(cs.take(i as int), start),
        decreases cands@.len() - i,
    {
        let ghost fresh = crate::quiz::fresh_items(cs.take(i as int), start);
        let x = &cands[i];
        proof {
            assert(cs.take(i + 1).drop_last() =~= cs.take(i as int));
            assert(cs.take(i + 1).last() == x@);
        }
        let mut found = false;
        let mut j: usize = 0;
        while j < values.len()
            invariant
                j <= values@.len(),
                !found ==> forall|t: int| 0 <= t < j ==> values.deep_view()[t] != x@,
                found ==> values.deep_view().contains(x@),
            decreases values@.len() - j,
        {
            if values[j] == *x {
                assert(values.deep_view()[j as int] == x@);
                found = true;
            }
            j = j + 1;
        }
        proof {
            let all = start + fresh;
            assert(all.contains(x@) <==> (start.contains(x@) || fresh.contains(x@))) by {
                if all.contains(x@) {
                    let t = choose|t: int| 0 <= t < all.len() && all[t] == x@;
                    if t >= start.len() {
                        assert(fresh[t - start.len()] == x@);
                    }
                }
                if start.contains(x@) {
                    let t = choose|t: int| 0 <= t < start.len() && start[t] == x@;
                    assert(all[t] == x@);
                }
                if fresh.contains(x@) {
                    let t = choose|t: int| 0 <= t < fresh.len() && fresh[t] == x@;
                    assert(all[start.len() + t] == x@);
                }
            }
        }
        if !found {
            let ghost before = values.deep_view();
            values.push(x.clone());
            assert(values.deep_view() =~= before.push(x@));
            assert(start + fresh.push(x@) =~= (start + fresh).push(x@));
        }
        i = i + 1;
    }
    assert(cs.take(i as int) =~= cs);
}

/// The text of a cell: its distinct alternatives (those of the raw value,
/// then the listed alternatives) joined with ` / `, or `-` when there are none.
pub open spec fn combined_cell(raw_value: Seq<char>, alternatives: Seq<char>) -> Seq<char> {
    let values = with_unique_values(with_unique_values(Seq::empty(), raw_value), alternatives);
    if values.len() == 0 {
        "-"@
    } else {
        join_by(values, " / "@)
    }
}

/// The displayed text of a cell from its raw value and its alternatives.
pub fn combine_cell_values(raw_value: &str, alternatives: &str) -> (r: String)
    ensures
        r@ == combined_cell(raw_value@, alternatives@),
{
    let mut values: Vec<String> = Vec::new();
    assert(values.deep_view() =~= Seq::<Seq<char>>::empty());
    push_unique_values(&mut values, raw_value);
    push_unique_values(&mut values, alternatives);
    if values.len() == 0 {
        string_from_str("-")
    } else {
        join_strings(values.as_slice(), " / ")
    }
}

/// The Unicode canonical decomposition (NFD) of a text, as
/// `unicode_normalization` computes it.
pub uninterp spec fn nfd_chars(s: Seq<char>) -> Seq<char>;

/// `UnicodeNormalization::nfd`: the canonical decomposition of `s`.
#[verifier::external_body]
fn nfd_string(s: &str) -> (r: String)
    ensures
        r@ == nfd_chars(s@),
{
    s.nfd().collect()
}

/// Whether a character is a combining mark, as `unicode_normalization` decides.
pub uninterp spec fn combining_mark(c: char) -> bool;

/// `unicode_normalization::char::is_combining_mark`.
#[verifier::external_body]
fn char_is_combining_mark(c: char) -> (b: bool)
    ensures
        b == combining_mark(c),
{
    unicode_normalization::char::is_combining_mark(c)
}

/// The lowercase mapping of one character in Unicode (`char::to_lowercase`).
pub uninterp spec fn unicode_char_lowercase(c: char) -> Seq<char>;

/// `char::to_lowercase`: the characters that `c` maps to in lowercase.
#[verifier::external_body]
fn char_to_lowercase(c: char) -> (r: String)
    ensures
        r@ == unicode_char_lowercase(c),
{
    c.to_lowercase().collect()
}

/// The characters that are not combining marks, each mapped to lowercase.
pub open spec fn lowered_unmarked(s: Seq<char>) -> Seq<char>
    decreases s.len(),
{
    if s.len() == 0 {
        Seq::empty()
    } else if combining_mark(s.last()) {
        lowered_unmarked(s.drop_last())
    } else {
        lowered_unmarked(s.drop_last()) + unicode_char_lowercase(s.last())
    }
}

/// A word as compared with the articles: non-letters trimmed off both ends,
/// decomposed, combining marks dropped, lowercased.
pub open spec fn normalized_token(token: Seq<char>) -> Seq<char> {
    lowered_unmarked(nfd_chars(trim_set(token, CharSet::NonAlphabetic)))
}

/// A decomposed text without its combining marks, each other character
/// mapped to lowercase.
pub fn strip_marks_lowercase(d: &str) -> (r: String)
    ensures
        r@ == lowered_unmarked(d@),
{
    let dv = chars_of(d);
    let mut r = String::new();
    let mut i: usize = 0;
    assert(dv@.take(0) =~= Seq::<char>::empty());
    while i < dv.len()
        invariant
            dv@ == d@,
            i <= dv@.len(),
            r@ == lowered_unmarked(dv@.take(i as int)),
        decreases dv@.len() - i,
    {
        assert(dv@.take(i + 1).drop_last() =~= dv@.take(i as int));
        if !char_is_combining_mark(dv[i]) {
            let l = char_to_lowercase(dv[i]);
            r.append(l.as_str());
        }
        i = i + 1;
    }
    assert(dv@.take(i as int) =~= dv@);
    r
}

/// A word in the form in which it is compared with the articles.
pub fn normalize_greek_token(token: &str) -> (r: String)
    ensures
        r@ == normalized_token(token@),
{
    let v = chars_of(token);
    let t = trim_chars(v.as_slice(), CharSet::NonAlphabetic);
    let ts = crate::text::string_of(t.as_slice());
    let d = nfd_string(ts.as_str());
    strip_marks_lowercase(d.as_str())
}

/// Whether a normalized word is a form of the Greek article.
pub open spec fn is_article_text(t: Seq<char>) -> bool {
    t == "ο"@ || t == "η"@ || t == "το"@ || t == "του"@ || t == "της"@ || t == "τω"@ || t == "τον"@
        || t == "την"@ || t == "οι"@ || t == "αι"@ || t == "τα"@ || t == "των"@ || t == "τοις"@
        || t == "ταις"@
}

/// Whether a word is a form of the Greek article, accents and case aside.
pub fn is_greek_article(token: &str) -> (r: bool)
    ensures
        r == is_article_text(normalized_token(token@)),
{
    let t = normalize_greek_token(token);
    let s = t.as_str();
    str_eq(s, "ο") || str_eq(s, "η") || str_eq(s, "το") || str_eq(s, "του") || str_eq(s, "της")
        || str_eq(s, "τω") || str_eq(s, "τον") || str_eq(s, "την") || str_eq(s, "οι") || str_eq(s, "αι")
        || str_eq(s, "τα") || str_eq(s, "των") || str_eq(s, "τοις") || str_eq(s, "ταις")
}

/// The words of a text: the maximal runs of characters that are not white
/// space (`str::split_whitespace`).
pub open spec fn words(s: Seq<char>) -> Seq<Seq<char>> {
    non_empty_pieces(split_set(s, CharSet::WhiteSpace))
}

/// A form without a leading article: the trimmed value, or, when its first
/// word is an article followed by more words, the other words joined with
/// single spaces.
pub open spec fn without_article(value: Seq<char>) -> Seq<char> {
    let trimmed = trim(value);
    let ws = words(trimmed);
    if ws.len() == 0 || !is_article_text(normalized_token(ws[0])) {
        trimmed
    } else {
        let remainder = join_by(ws.drop_first(), " "@);
        if remainder.len() == 0 {
            trimmed
        } else {
            remainder
        }
    }
}

/// Removes a leading Greek article from a form.
pub fn strip_leading_article(value: &str) -> (r: String)
    ensures
        r@ == without_article(value@),
{
    let trimmed = trim_str(value);
    let tv = chars_of(trimmed.as_str());
    let pieces = split_chars_on(tv.as_slice(), CharSet::WhiteSpace);
    let ws = keep_non_empty(&pieces);
    if ws.len() == 0 {
        return trimmed;
    }
    if !is_greek_article(ws[0].as_str()) {
        return trimmed;
    }
    let mut rest: Vec<String> = Vec::new();
    let mut i: usize = 1;
    while i < ws.len()
        invariant
            1 <= i <= ws@.len(),
            rest.deep_view() == ws.deep_view().drop_first().take(i - 1),
        decreases ws@.len() - i,
    {
        let ghost before = rest.deep_view();
        let w = ws[i].clone();
        rest.push(w);
        assert(rest.deep_view() =~= before.push(w@));
        i = i + 1;
        assert(rest.deep_view() =~= ws.deep_view().drop_first().take(i - 1));
    }
    assert(ws.deep_view().drop_first().take(i - 1) =~= ws.deep_view().drop_first());
    let remainder = join_strings(rest.as_slice(), " ");
    if remainder.unicode_len() == 0 {
        trimmed
    } else {
        remainder
    }
}

/// Whether the forms of a table kind may carry an article.
pub open spec fn nominal_kind(kind: Seq<char>) -> bool {
    kind == "nominal"@ || kind == "gendered_nominal"@ || kind == "nominal_irregular"@
}

/// The form asked in the quiz for a cell: for nominal tables each
/// ` / `-separated alternative without its article, otherwise the cell text.
pub open spec fn sanitized_form(kind: Seq<char>, display_value: Seq<char>) -> Seq<char> {
    if nominal_kind(kind) {
        join_by(split_by(display_value, " / "@).map_values(|p: Seq<char>| without_article(p)), " / "@)
    } else {
        display_value
    }
}

/// The quiz form of a cell.
pub fn sanitize_quiz_form(table_kind: &str, display_value: &str) -> (r: String)
    ensures
        r@ == sanitized_form(table_kind@, display_value@),
{
    if str_eq(table_kind, "nominal") || str_eq(table_kind, "gendered_nominal") || str_eq(table_kind, "nominal_irregular") {
        let sep = chars_of(" / ");
        proof {
            reveal_strlit(" / ");
        }
        let v = chars_of(display_value);
        let parts = split_chars(v.as_slice(), sep.as_slice());
        let mut out: Vec<String> = Vec::new();
        let mut i: usize = 0;
        while i < parts.len()
            invariant
                i <= parts@.len(),
                parts.deep_view() == split_by(display_value@, " / "@),
                out.deep_view() == parts.deep_view().map_values(|p: Seq<char>| without_article(p)).take(i as int),
            decreases parts@.len() - i,
        {
            let ghost before = out.deep_view();
            let w = strip_leading_article(parts[i].as_str());
            out.push(w);
            assert(out.deep_view() =~= before.push(w@));
            i = i + 1;
            assert(out.deep_view() =~= parts.deep_view().map_values(|p: Seq<char>| without_article(p)).take(i as int));
        }
        assert(parts.deep_view().map_values(|p: Seq<char>| without_article(p)).take(i as int) =~= parts.deep_view().map_values(|p: Seq<char>| without_article(p)));
        join_strings(out.as_slice(), " / ")
    } else {
        string_from_str(display_value)
    }
}


/// The cases, numbers and genders are shown by their fixed names, whatever
/// the table's own label says: the dative reads `Dative`, the plural
/// `Plural`; and no two cases share a name.
pub proof fn law_fixed_display_names(fallback: Seq<char>)
    ensures
        display_of("case"@, "nom"@, fallback) == "Nominative"@ && display_of("case"@, "nominative"@, fallback) == "Nominative"@,
        display_of("case"@, "gen"@, fallback) == "Genitive"@ && display_of("case"@, "genitive"@, fallback) == "Genitive"@,
        display_of("case"@, "dat"@, fallback) == "Dative"@ && display_of("case"@, "dative"@, fallback) == "Dative"@,
        display_of("case"@, "acc"@, fallback) == "Accusative"@ && display_of("case"@, "accusative"@, fallback) == "Accusative"@,
        display_of("case"@, "voc"@, fallback) == "Vocative"@ && display_of("case"@, "vocative"@, fallback) == "Vocative"@,
        display_of("number"@, "sg"@, fallback) == "Singular"@ && display_of("number"@, "singular"@, fallback) == "Singular"@,
        display_of("number"@, "du"@, fallback) == "Dual"@ && display_of("number"@, "dual"@, fallback) == "Dual"@,
        display_of("number"@, "pl"@, fallback) == "Plural"@ && display_of("number"@, "plural"@, fallback) == "Plural"@,
        display_of("gender"@, "masc"@, fallback) == "Masc"@ && display_of("gender"@, "fem"@, fallback) == "Fem"@
            && display_of("gender"@, "neut"@, fallback) == "Neut"@,
        "Nominative"@ != "Genitive"@ && "Nominative"@ != "Dative"@ && "Nominative"@ != "Accusative"@
            && "Nominative"@ != "Vocative"@ && "Genitive"@ != "Dative"@ && "Genitive"@ != "Accusative"@
            && "Genitive"@ != "Vocative"@ && "Dative"@ != "Accusative"@ && "Dative"@ != "Vocative"@
            && "Accusative"@ != "Vocative"@,
{
    reveal_strlit("case");
    reveal_strlit("number");
    reveal_strlit("gender");
    reveal_strlit("nom");
    reveal_strlit("nominative");
    reveal_strlit("gen");
    reveal_strlit("genitive");
    reveal_strlit("dat");
    reveal_strlit("dative");
    reveal_strlit("acc");
    reveal_strlit("accusative");
    reveal_strlit("voc");
    reveal_strlit("vocative");
    reveal_strlit("sg");
    reveal_strlit("singular");
    reveal_strlit("du");
    reveal_strlit("dual");
    reveal_strlit("pl");
    reveal_strlit("plural");
    reveal_strlit("masc");
    reveal_strlit("masculine");
    reveal_strlit("fem");
    reveal_strlit("feminine");
    reveal_strlit("neut");
    reveal_strlit("Nominative");
    reveal_strlit("Genitive");
    reveal_strlit("Dative");
    reveal_strlit("Accusative");
    reveal_strlit("Vocative");
    assert("case"@[0] != "number"@[0]);
    assert("gender"@[0] != "number"@[0]);
    assert("gender"@[0] != "case"@[0]);
    assert("gen"@[0] != "nom"@[0] && "genitive"@[0] != "nom"@[0]);
    assert("dat"@[0] != "nom"@[0] && "dat"@[0] != "gen"@[0] && "dative"@[0] != "nom"@[0] && "dative"@[0] != "gen"@[0]);
    assert("acc"@[0] != "nom"@[0] && "acc"@[0] != "gen"@[0] && "acc"@[0] != "dat"@[0]);
    assert("accusative"@[0] != "nom"@[0] && "accusative"@[0] != "gen"@[0] && "accusative"@[0] != "dat"@[0]);
    assert("voc"@[0] != "nom"@[0] && "voc"@[0] != "gen"@[0] && "voc"@[0] != "dat"@[0] && "voc"@[0] != "acc"@[0]);
    assert("vocative"@[0] != "nom"@[0] && "vocative"@[0] != "gen"@[0] && "vocative"@[0] != "dat"@[0] && "vocative"@[0] != "acc"@[0]);
    assert("du"@[0] != "sg"@[0] && "dual"@[0] != "sg"@[0] && "du"@[0] != "singular"@[0] && "dual"@[0] != "singular"@[0]);
    assert("pl"@[0] != "sg"@[0] && "pl"@[0] != "du"@[0] && "plural"@[0] != "sg"@[0] && "plural"@[0] != "du"@[0]);
    assert("pl"@[0] != "singular"@[0] && "plural"@[0] != "singular"@[0] && "pl"@[0] != "dual"@[0] && "plural"@[0] != "dual"@[0]);
    assert("fem"@[0] != "masc"@[0] && "fem"@[0] != "masculine"@[0]);
    assert("neut"@[0] != "masc"@[0] && "neut"@[0] != "masculine"@[0] && "neut"@[0] != "fem"@[0] && "neut"@[0] != "feminine"@[0]);
    assert("Nominative"@[0] != "Genitive"@[0] && "Nominative"@[0] != "Dative"@[0] && "Nominative"@[0] != "Accusative"@[0]);
    assert("Nominative"@[0] != "Vocative"@[0] && "Genitive"@[0] != "Dative"@[0] && "Genitive"@[0] != "Accusative"@[0]);
    assert("Genitive"@[0] != "Vocative"@[0] && "Dative"@[0] != "Accusative"@[0] && "Dative"@[0] != "Vocative"@[0]);
    assert("Accusative"@[0] != "Vocative"@[0]);
}


/// Constants sort in grammatical order: the cases nominative, genitive,
/// dative, accusative, vocative; the numbers singular, dual, plural; the
/// persons first, second, third; the genders masculine, feminine, neuter;
/// and a label outside these orders after all of them.
pub proof fn law_grammatical_sort_order(other: Seq<char>)
    ensures
        sort_order_of("case"@, "nom"@) < sort_order_of("case"@, "gen"@) < sort_order_of("case"@, "dat"@)
            < sort_order_of("case"@, "acc"@) < sort_order_of("case"@, "voc"@),
        sort_order_of("number"@, "sg"@) < sort_order_of("number"@, "du"@) < sort_order_of("number"@, "pl"@),
        sort_order_of("person"@, "1"@) < sort_order_of("person"@, "2"@) < sort_order_of("person"@, "3"@),
        sort_order_of("gender"@, "masc"@) < sort_order_of("gender"@, "fem"@) < sort_order_of("gender"@, "neut"@),
        sort_order_of("case"@, "voc"@) < sort_order_of("case"@, other) || sort_order_of("case"@, other) <= 4,
        sort_order_of("case"@, "nom"@) == sort_order_of("case"@, "nominative"@),
        sort_order_of("case"@, "dat"@) == sort_order_of("case"@, "dative"@),
{
    reveal_strlit("part_of_speech");
    reveal_strlit("type");
    reveal_strlit("tense");
    reveal_strlit("voice");
    reveal_strlit("mood");
    reveal_strlit("case");
    reveal_strlit("number");
    reveal_strlit("gender");
    reveal_strlit("person");
    reveal_strlit("nom");
    reveal_strlit("gen");
    reveal_strlit("genitive");
    reveal_strlit("dat");
    reveal_strlit("dative");
    reveal_strlit("acc");
    reveal_strlit("accusative");
    reveal_strlit("voc");
    reveal_strlit("nominative");
    reveal_strlit("sg");
    reveal_strlit("singular");
    reveal_strlit("du");
    reveal_strlit("dual");
    reveal_strlit("pl");
    reveal_strlit("1");
    reveal_strlit("1st");
    reveal_strlit("2");
    reveal_strlit("2nd");
    reveal_strlit("3");
    reveal_strlit("masc");
    reveal_strlit("masculine");
    reveal_strlit("fem");
    reveal_strlit("feminine");
    reveal_strlit("neut");
    assert("case"@[0] != "type"@[0] && "case"@[0] != "mood"@[0]);
    assert("number"@[0] != "gender"@[0] && "number"@[0] != "person"@[0] && "gender"@[0] != "person"@[0]);
    assert("tense"@[0] != "voice"@[0]);
    assert("person"@[1] != "part_of_speech"@[1]);
    assert("person"@[0] != "type"@[0] && "person"@[0] != "tense"@[0] && "person"@[0] != "mood"@[0] && "person"@[0] != "case"@[0]);
    assert("gender"@[0] != "type"@[0] && "gender"@[0] != "part_of_speech"@[0] && "number"@[0] != "part_of_speech"@[0]);
    assert("gen"@[0] != "nom"@[0] && "genitive"@[0] != "nom"@[0]);
    assert("dat"@[0] != "nom"@[0] && "dat"@[0] != "gen"@[0] && "dative"@[0] != "nom"@[0] && "dative"@[0] != "gen"@[0]);
    assert("acc"@[0] != "nom"@[0] && "acc"@[0] != "gen"@[0] && "acc"@[0] != "dat"@[0]);
    assert("voc"@[0] != "nom"@[0] && "voc"@[0] != "gen"@[0] && "voc"@[0] != "dat"@[0] && "voc"@[0] != "acc"@[0]);
    assert("voc"@[0] != "nominative"@[0] && "voc"@[0] != "genitive"@[0] && "voc"@[0] != "dative"@[0] && "voc"@[0] != "accusative"@[0]);
    assert("du"@[0] != "sg"@[0] && "du"@[0] != "singular"@[0]);
    assert("pl"@[0] != "sg"@[0] && "pl"@[0] != "du"@[0] && "pl"@[0] != "singular"@[0] && "pl"@[0] != "dual"@[0]);
    assert("2"@[0] != "1"@[0] && "2"@[0] != "1st"@[0]);
    assert("3"@[0] != "1"@[0] && "3"@[0] != "2"@[0] && "3"@[0] != "1st"@[0] && "3"@[0] != "2nd"@[0]);
    assert("fem"@[0] != "masc"@[0] && "fem"@[0] != "masculine"@[0]);
    assert("neut"@[0] != "masc"@[0] && "neut"@[0] != "masculine"@[0] && "neut"@[0] != "fem"@[0] && "neut"@[0] != "feminine"@[0]);
}

} // verus!
