//! Building the quiz data from loaded paradigm tables: the catalogue of
//! grammatical constants, the quiz rows, the displayed tables and the filter
//! sections.
use vstd::prelude::*;

use crate::models::{
    assoc_get, assoc_put, constant_views, row_views, stem_row_view, stem_table_view, stem_view_view, ConstantTable,
    ConstantView, GrammarConstant, LemmaAttributes, QuizRow, QuizRowView, StemTable, StemTableRow,
    StemView, TagMap,
};
use crate::tags::{
    family_canonical, family_canonical_of, family_display, family_display_of, sanitize_quiz_form,
    sanitized_form, table_type_canonical, table_type_canonical_of, table_type_display,
    table_type_display_of, canonical_from_key, canonical_of, display_from_category, display_of, heading_parts,
    normalize_voice, sort_order_for, sort_order_of, split_heading, voice_names, shorten_axis_label,
    shortened_label,
};
use crate::text::{trim, chars_of, contains_seq, str_contains, trim_str, str_eq, string_from_str, to_lowercase, unicode_lowercase};

verus! {

/// The index of the constant with the given category and canonical label.
pub open spec fn key_index(cs: Seq<ConstantView>, category: Seq<char>, label: Seq<char>) -> Option<int>
    decreases cs.len(),
{
    if cs.len() == 0 {
        None
    } else {
        match key_index(cs.drop_last(), category, label) {
            Some(k) => Some(k),
            None => if cs.last().category == category && cs.last().label == label {
                Some(cs.len() - 1)
            } else {
                None
            },
        }
    }
}

proof fn lemma_key_index(cs: Seq<ConstantView>, category: Seq<char>, label: Seq<char>)
    ensures
        key_index(cs, category, label) matches Some(k) ==> 0 <= k < cs.len() && cs[k].category == category
            && cs[k].label == label,
        key_index(cs, category, label) is None ==> forall|k: int|
            0 <= k < cs.len() ==> !(cs[k].category == category && cs[k].label == label),
    decreases cs.len(),
{
    if cs.len() > 0 {
        lemma_key_index(cs.drop_last(), category, label);
        assert forall|k: int| 0 <= k < cs.len() - 1 implies cs[k] == cs.drop_last()[k] by {}
    }
}

/// The catalogue after asking for the constant (`category`, `canonical`): the
/// existing one, or a new one with the next id. Returns the catalogue and the id.
pub open spec fn catalog_ensure(
    cs: Seq<ConstantView>,
    category: Seq<char>,
    canonical: Seq<char>,
    display_label: Seq<char>,
) -> (Seq<ConstantView>, i64) {
    match key_index(cs, category, canonical) {
        Some(k) => (cs, cs[k].id),
        None => (
            cs.push(
                ConstantView {
                    id: (cs.len() + 1) as i64,
                    category,
                    label: canonical,
                    display_label,
                    sort_order: sort_order_of(category, canonical),
                },
            ),
            (cs.len() + 1) as i64,
        ),
    }
}

/// Asking twice for the same constant gives the same id and changes nothing
/// the second time; the id names a constant of that category and label.
pub proof fn law_ensure_idempotent(
    cs: Seq<ConstantView>,
    category: Seq<char>,
    canonical: Seq<char>,
    display_label: Seq<char>,
    other_display: Seq<char>,
)
    requires
        catalog_wf(cs),
        cs.len() + 1 <= i64::MAX,
    ensures
        ({
            let (cs1, id1) = catalog_ensure(cs, category, canonical, display_label);
            &&& catalog_ensure(cs1, category, canonical, other_display) == (cs1, id1)
            &&& 1 <= id1 <= cs1.len()
            &&& cs1[id1 - 1].id == id1
            &&& cs1[id1 - 1].category == category
            &&& cs1[id1 - 1].label == canonical
        }),
{
    lemma_key_index(cs, category, canonical);
    let (cs1, id1) = catalog_ensure(cs, category, canonical, display_label);
    match key_index(cs, category, canonical) {
        Some(k) => {
            assert(cs[k].id == k + 1);
        },
        None => {
            let k = cs.len() as int;
            assert(cs1.drop_last() =~= cs);
            lemma_key_index(cs1, category, canonical);
            assert(key_index(cs1, category, canonical) == Some(k));
        },
    }
}

/// The constants handed out so far, with ids counting up from 1.
#[derive(Debug)]
pub struct ConstantCatalog {
    pub next_id: i64,
    pub constants: ConstantTable,
}

impl View for ConstantCatalog {
    type V = Seq<ConstantView>;

    open spec fn view(&self) -> Seq<ConstantView> {
        self.constants@
    }
}

/// The constants of a catalogue have ids 1, 2, ... in order and no two share
/// a category and a canonical label.
pub open spec fn catalog_wf(cs: Seq<ConstantView>) -> bool {
    &&& forall|k: int| 0 <= k < cs.len() ==> (#[trigger] cs[k]).id == k + 1
    &&& forall|i: int, j: int|
        0 <= i < j < cs.len() ==> !((#[trigger] cs[i]).category == (#[trigger] cs[j]).category
            && cs[i].label == cs[j].label)
    &&& forall|k: int|
        0 <= k < cs.len() ==> (#[trigger] cs[k]).sort_order == sort_order_of(cs[k].category, cs[k].label)
}

impl ConstantCatalog {
    pub open spec fn wf(&self) -> bool {
        &&& catalog_wf(self@)
        &&& self.next_id == self@.len() + 1
    }

    /// The constant (`category`, `canonical`), created with the next id when
    /// it is not in the catalogue yet; returns its id.
    pub fn ensure(&mut self, category: &str, canonical: &str, display_label: &str) -> (id: i64)
        requires
            old(self).wf(),
            old(self)@.len() + 2 < i64::MAX,
        ensures
            final(self).wf(),
            (final(self)@, id) == catalog_ensure(old(self)@, category@, canonical@, display_label@),
    {
        let ghost cs = self@;
        proof {
            lemma_key_index(cs, category@, canonical@);
        }
        let n = self.constants.items.len();
        let mut i: usize = 0;
        while i < n
            invariant
                n == self.constants.items@.len(),
                cs == self@,
                catalog_wf(cs),
                self.wf(),
                i <= n,
                forall|k: int| 0 <= k < i ==> !(cs[k].category == category@ && cs[k].label == canonical@),
            decreases n - i,
        {
            let c = &self.constants.items[i];
            if str_eq(c.category.as_str(), category) && str_eq(c.label.as_str(), canonical) {
                proof {
                    lemma_key_index(cs, category@, canonical@);
                    assert(cs[i as int].category == category@ && cs[i as int].label == canonical@);
                    if let Some(k) = key_index(cs, category@, canonical@) {
                        if k > i {
                            assert(!((cs[i as int]).category == (cs[k]).category && cs[i as int].label == cs[k].label));
                        }
                        if k < i {
                            assert(!(cs[k].category == category@ && cs[k].label == canonical@));
                        }
                        assert(k == i);
                    }
                }
                return c.id;
            }
            i = i + 1;
        }
        let id = self.next_id;
        self.next_id = self.next_id + 1;
        let c = GrammarConstant {
            id,
            category: string_from_str(category),
            label: string_from_str(canonical),
            display_label: string_from_str(display_label),
            sort_order: sort_order_for(category, canonical),
        };
        self.constants.items.push(c);
        proof {
            assert(self@ =~= cs.push(c@));
            assert forall|i: int, j: int| 0 <= i < j < self@.len() implies !((#[trigger] self@[i]).category == (#[trigger] self@[j]).category && self@[i].label == self@[j].label) by {
                if j == cs.len() {
                    assert(self@[i] == cs[i]);
                } else {
                    assert(self@[i] == cs[i] && self@[j] == cs[j]);
                }
            }
            assert forall|k: int| 0 <= k < self@.len() implies (#[trigger] self@[k]).id == k + 1 by {
                if k < cs.len() {
                    assert(self@[k] == cs[k]);
                }
            }
            assert forall|k: int| 0 <= k < self@.len() implies (#[trigger] self@[k]).sort_order == sort_order_of(self@[k].category, self@[k].label) by {
                if k < cs.len() {
                    assert(self@[k] == cs[k]);
                }
            }
        }
        id
    }
}

impl Default for ConstantCatalog {
    /// An empty catalogue whose first id is 1.
    fn default() -> (r: ConstantCatalog)
        ensures
            r@ == Seq::<ConstantView>::empty(),
            r.wf(),
    {
        let r = ConstantCatalog { next_id: 1, constants: ConstantTable::new() };
        r
    }
}

/// The tag state while a row is described: the catalogue and the row's tags.
pub open spec fn known_tag(
    state: (Seq<ConstantView>, Seq<(Seq<char>, i64)>),
    category: Seq<char>,
    canonical: Seq<char>,
    display_label: Seq<char>,
) -> (Seq<ConstantView>, Seq<(Seq<char>, i64)>) {
    let (cs, id) = catalog_ensure(state.0, category, canonical, display_label);
    (cs, assoc_put(state.1, category, id))
}

/// Records the constant (`category`, `canonical`) for a row.
pub fn insert_known_tag(
    catalog: &mut ConstantCatalog,
    constant_ids: &mut TagMap,
    category: &str,
    canonical: &str,
    display_label: &str,
)
    requires
        old(catalog).wf(),
        old(catalog)@.len() + 2 < i64::MAX,
    ensures
        final(catalog).wf(),
        (final(catalog)@, final(constant_ids)@) == known_tag((old(catalog)@, old(constant_ids)@), category@, canonical@, display_label@),
        final(catalog)@.len() <= old(catalog)@.len() + 1,
{
    let id = catalog.ensure(category, canonical, display_label);
    constant_ids.insert(category, id);
}


/// The tag state after recording the constant that a table axis names.
pub open spec fn tag_from_key(
    state: (Seq<ConstantView>, Seq<(Seq<char>, i64)>),
    category: Seq<char>,
    key: Seq<char>,
    display_label: Seq<char>,
) -> (Seq<ConstantView>, Seq<(Seq<char>, i64)>) {
    let canonical = canonical_of(category, key, display_label);
    known_tag(state, category, canonical, display_of(category, canonical, display_label))
}

/// Records for a row the constant that a table axis (key and label) names.
pub fn insert_tag_from_key(
    catalog: &mut ConstantCatalog,
    constant_ids: &mut TagMap,
    category: &str,
    key: &str,
    display_label: &str,
)
    requires
        old(catalog).wf(),
        old(catalog)@.len() + 2 < i64::MAX,
    ensures
        final(catalog).wf(),
        (final(catalog)@, final(constant_ids)@) == tag_from_key((old(catalog)@, old(constant_ids)@), category@, key@, display_label@),
        final(catalog)@.len() <= old(catalog)@.len() + 1,
{
    let canonical = canonical_from_key(category, key, display_label);
    let display = display_from_category(category, canonical.as_str(), display_label);
    insert_known_tag(catalog, constant_ids, category, canonical.as_str(), display.as_str());
}

/// Whether a lowercase heading part names a tense.
pub open spec fn tense_word(n: Seq<char>) -> bool {
    n == "present"@ || n == "imperfect"@ || n == "future"@ || n == "aorist"@ || n == "perfect"@
        || n == "pluperfect"@ || n == "future perfect"@
}

/// Whether a lowercase heading part names a mood.
pub open spec fn mood_word(n: Seq<char>) -> bool {
    n == "indicative"@ || n == "subjunctive"@ || n == "optative"@ || n == "imperative"@ || n
        == "infinitive"@ || n == "participle"@
}

/// Whether a lowercase heading part names a voice.
pub open spec fn voice_word(n: Seq<char>) -> bool {
    n == "active"@ || n == "middle"@ || n == "passive"@ || n == "middle / passive"@ || n
        == "middle/passive"@ || n == "active / middle"@ || n == "active/middle"@
}

/// Whether `s` ends with `suffix`.
pub open spec fn ends_with(s: Seq<char>, suffix: Seq<char>) -> bool {
    s.len() >= suffix.len() && s.skip(s.len() - suffix.len()) == suffix
}

/// Whether the voice in a heading counts for a table of this kind: finite
/// and irregular tables.
pub open spec fn voice_table(kind: Seq<char>) -> bool {
    kind == "verb"@ || ends_with(kind, "_irregular"@)
}

fn ends_with_str(s: &str, suffix: &str) -> (r: bool)
    ensures
        r == ends_with(s@, suffix@),
{
    let a = chars_of(s);
    let b = chars_of(suffix);
    if a.len() < b.len() {
        return false;
    }
    let off = a.len() - b.len();
    let alen = a.len();
    let mut i: usize = 0;
    while i < b.len()
        invariant
            a@ == s@,
            b@ == suffix@,
            off == a@.len() - b@.len(),
            a@.len() >= b@.len(),
            alen == a@.len(),
            i <= b@.len(),
            forall|t: int| 0 <= t < i ==> a@[off + t] == b@[t],
        decreases b@.len() - i,
    {
        if a[off + i] != b[i] {
            assert(a@.skip(off as int)[i as int] != b@[i as int]);
            return false;
        }
        i = i + 1;
    }
    assert(a@.skip(off as int) =~= b@);
    true
}

/// The tag state after one heading part: a tense, a mood, a number (`...
/// forms`) or, in finite and irregular tables, a voice is recorded.
pub open spec fn heading_part_tag(
    kind: Seq<char>,
    state: (Seq<ConstantView>, Seq<(Seq<char>, i64)>),
    part: Seq<char>,
) -> (Seq<ConstantView>, Seq<(Seq<char>, i64)>) {
    let n = unicode_lowercase(part);
    if tense_word(n) {
        known_tag(state, "tense"@, n, part)
    } else if mood_word(n) {
        known_tag(state, "mood"@, n, part)
    } else if n == "singular forms"@ {
        known_tag(state, "number"@, "singular"@, "Singular"@)
    } else if n == "dual forms"@ {
        known_tag(state, "number"@, "dual"@, "Dual"@)
    } else if n == "plural forms"@ {
        known_tag(state, "number"@, "plural"@, "Plural"@)
    } else if voice_word(n) && voice_table(kind) {
        let names = voice_names(n, part);
        known_tag(state, "voice"@, names.0, names.1)
    } else {
        state
    }
}

/// The tag state after the heading parts, in order.
pub open spec fn heading_tags(
    kind: Seq<char>,
    parts: Seq<Seq<char>>,
    state: (Seq<ConstantView>, Seq<(Seq<char>, i64)>),
) -> (Seq<ConstantView>, Seq<(Seq<char>, i64)>)
    decreases parts.len(),
{
    if parts.len() == 0 {
        state
    } else {
        heading_part_tag(kind, heading_tags(kind, parts.drop_last(), state), parts.last())
    }
}

/// Records for a row the tense, mood, number and voice that a table heading names.
pub fn apply_heading_tags(
    table_kind: &str,
    heading: &str,
    catalog: &mut ConstantCatalog,
    constant_ids: &mut TagMap,
)
    requires
        old(catalog).wf(),
        old(catalog)@.len() + heading_parts(heading@).len() + 2 < i64::MAX,
    ensures
        final(catalog).wf(),
        (final(catalog)@, final(constant_ids)@) == heading_tags(table_kind@, heading_parts(heading@), (old(catalog)@, old(constant_ids)@)),
        final(catalog)@.len() <= old(catalog)@.len() + heading_parts(heading@).len(),
{
    let parts = split_heading(heading);
    let ghost ps = parts.deep_view();
    let ghost start = (old(catalog)@, old(constant_ids)@);
    let is_voice_table = str_eq(table_kind, "verb") || ends_with_str(table_kind, "_irregular");
    let mut i: usize = 0;
    assert(ps.take(0) =~= Seq::<Seq<char>>::empty());
    while i < parts.len()
        invariant
            ps == parts.deep_view(),
            ps == heading_parts(heading@),
            start == (old(catalog)@, old(constant_ids)@),
            i <= parts@.len(),
            is_voice_table == voice_table(table_kind@),
            catalog.wf(),
            catalog@.len() <= old(catalog)@.len() + i,
            old(catalog)@.len() + ps.len() + 2 < i64::MAX,
            (catalog@, constant_ids@) == heading_tags(table_kind@, ps.take(i as int), start),
        decreases parts@.len() - i,
    {
        let part = parts[i].as_str();
        proof {
            assert(ps.take(i + 1).drop_last() =~= ps.take(i as int));
            assert(ps.take(i + 1).last() == part@);
        }
        let normalized = to_lowercase(part);
        let n = normalized.as_str();
        if str_eq(n, "present") || str_eq(n, "imperfect") || str_eq(n, "future") || str_eq(n, "aorist")
            || str_eq(n, "perfect") || str_eq(n, "pluperfect") || str_eq(n, "future perfect") {
            insert_known_tag(catalog, constant_ids, "tense", n, part);
        } else if str_eq(n, "indicative") || str_eq(n, "subjunctive") || str_eq(n, "optative") || str_eq(n, "imperative")
            || str_eq(n, "infinitive") || str_eq(n, "participle") {
            insert_known_tag(catalog, constant_ids, "mood", n, part);
        } else if str_eq(n, "singular forms") {
            insert_known_tag(catalog, constant_ids, "number", "singular", "Singular");
        } else if str_eq(n, "dual forms") {
            insert_known_tag(catalog, constant_ids, "number", "dual", "Dual");
        } else if str_eq(n, "plural forms") {
            insert_known_tag(catalog, constant_ids, "number", "plural", "Plural");
        } else if (str_eq(n, "active") || str_eq(n, "middle") || str_eq(n, "passive") || str_eq(n, "middle / passive")
            || str_eq(n, "middle/passive") || str_eq(n, "active / middle") || str_eq(n, "active/middle")) && is_voice_table {
            let (canonical, display) = normalize_voice(n, part);
            insert_known_tag(catalog, constant_ids, "voice", canonical.as_str(), display.as_str());
        }
        i = i + 1;
    }
    assert(ps.take(i as int) =~= ps);
}


/// One cell of a loaded paradigm table.
#[derive(Debug)]
pub struct LoadedCell {
    pub id: i64,
    pub column_key: String,
    pub display_value: String,
}

/// One column of a loaded paradigm table.
#[derive(Debug)]
pub struct LoadedColumn {
    pub key: String,
    pub label: String,
}

/// One row of a loaded paradigm table.
#[derive(Debug)]
pub struct LoadedRow {
    pub key: String,
    pub label: String,
    pub cells: Vec<LoadedCell>,
}

/// One loaded paradigm table.
#[derive(Debug)]
pub struct LoadedTable {
    pub kind: String,
    pub heading: String,
    pub columns: Vec<LoadedColumn>,
    pub rows: Vec<LoadedRow>,
}

/// One loaded paradigm: a lemma with its tables.
#[derive(Debug)]
pub struct LoadedParadigm {
    pub id: i64,
    pub title: String,
    pub family: String,
    pub tables: Vec<LoadedTable>,
}

pub struct LoadedCellView {
    pub id: i64,
    pub column_key: Seq<char>,
    pub display_value: Seq<char>,
}

pub struct LoadedColumnView {
    pub key: Seq<char>,
    pub label: Seq<char>,
}

pub struct LoadedRowView {
    pub key: Seq<char>,
    pub label: Seq<char>,
    pub cells: Seq<LoadedCellView>,
}

pub struct LoadedTableView {
    pub kind: Seq<char>,
    pub heading: Seq<char>,
    pub columns: Seq<LoadedColumnView>,
    pub rows: Seq<LoadedRowView>,
}

pub struct LoadedParadigmView {
    pub id: i64,
    pub title: Seq<char>,
    pub family: Seq<char>,
    pub tables: Seq<LoadedTableView>,
}

impl View for LoadedCell {
    type V = LoadedCellView;

    open spec fn view(&self) -> LoadedCellView {
        LoadedCellView { id: self.id, column_key: self.column_key@, display_value: self.display_value@ }
    }
}

impl View for LoadedColumn {
    type V = LoadedColumnView;

    open spec fn view(&self) -> LoadedColumnView {
        LoadedColumnView { key: self.key@, label: self.label@ }
    }
}

impl View for LoadedRow {
    type V = LoadedRowView;

    open spec fn view(&self) -> LoadedRowView {
        LoadedRowView {
            key: self.key@,
            label: self.label@,
            cells: self.cells@.map_values(|c: LoadedCell| c@),
        }
    }
}

impl View for LoadedTable {
    type V = LoadedTableView;

    open spec fn view(&self) -> LoadedTableView {
        LoadedTableView {
            kind: self.kind@,
            heading: self.heading@,
            columns: self.columns@.map_values(|c: LoadedColumn| c@),
            rows: self.rows@.map_values(|r: LoadedRow| r@),
        }
    }
}

impl View for LoadedParadigm {
    type V = LoadedParadigmView;

    open spec fn view(&self) -> LoadedParadigmView {
        LoadedParadigmView {
            id: self.id,
            title: self.title@,
            family: self.family@,
            tables: self.tables@.map_values(|t: LoadedTable| t@),
        }
    }
}

/// Whether a table gives no quiz rows: derived forms and dual tables.
pub open spec fn table_skipped(t: LoadedTableView) -> bool {
    t.kind == "derivatives"@ || contains_seq(t.heading, "Dual"@)
}

/// Whether a cell gives no quiz row: empty, `-`, or in the dual column.
pub open spec fn cell_skipped(cell: LoadedCellView) -> bool {
    trim(cell.display_value).len() == 0 || cell.display_value == "-"@ || cell.column_key == "du"@
}

/// The tag state after the constant named by column `idx`, if the table has
/// that column.
pub open spec fn column_tag(
    state: (Seq<ConstantView>, Seq<(Seq<char>, i64)>),
    t: LoadedTableView,
    idx: int,
    category: Seq<char>,
) -> (Seq<ConstantView>, Seq<(Seq<char>, i64)>) {
    if 0 <= idx < t.columns.len() {
        tag_from_key(state, category, t.columns[idx].key, t.columns[idx].label)
    } else {
        state
    }
}

/// The tag state after the constants that the row and column of a cell name,
/// by table kind: case and number, case and gender, person and number,
/// gender and voice, or voice.
pub open spec fn kind_tags(
    state: (Seq<ConstantView>, Seq<(Seq<char>, i64)>),
    t: LoadedTableView,
    row: LoadedRowView,
    idx: int,
    cell: LoadedCellView,
) -> (Seq<ConstantView>, Seq<(Seq<char>, i64)>) {
    if t.kind == "nominal"@ {
        column_tag(tag_from_key(state, "case"@, row.key, row.label), t, idx, "number"@)
    } else if t.kind == "gendered_nominal"@ {
        column_tag(tag_from_key(state, "case"@, row.key, row.label), t, idx, "gender"@)
    } else if t.kind == "verb"@ {
        column_tag(tag_from_key(state, "person"@, row.key, row.label), t, idx, "number"@)
    } else if t.kind == "participle"@ {
        let s1 = tag_from_key(state, "gender"@, row.key, row.label);
        if cell.column_key != "form"@ {
            column_tag(s1, t, idx, "voice"@)
        } else {
            s1
        }
    } else if t.kind == "infinitive"@ {
        if cell.column_key != "form"@ {
            column_tag(state, t, idx, "voice"@)
        } else {
            state
        }
    } else {
        state
    }
}

/// The catalogue and the tags of the quiz row for a cell: part of speech,
/// table type, the heading's tags, then the row's and column's.
pub open spec fn cell_tags(
    cs: Seq<ConstantView>,
    p: LoadedParadigmView,
    t: LoadedTableView,
    row: LoadedRowView,
    idx: int,
    cell: LoadedCellView,
) -> (Seq<ConstantView>, Seq<(Seq<char>, i64)>) {
    let s1 = known_tag((cs, Seq::empty()), "part_of_speech"@, family_canonical_of(p.family), family_display_of(p.family));
    let s2 = known_tag(s1, "type"@, table_type_canonical_of(t.kind), table_type_display_of(t.kind));
    let s3 = heading_tags(t.kind, heading_parts(t.heading), s2);
    kind_tags(s3, t, row, idx, cell)
}

/// The quiz row for a cell with the given tags.
pub open spec fn cell_row(
    p: LoadedParadigmView,
    t: LoadedTableView,
    cell: LoadedCellView,
    tags: Seq<(Seq<char>, i64)>,
) -> QuizRowView {
    QuizRowView {
        inflection_id: cell.id,
        lemma_id: p.id,
        lemma: p.title,
        form: sanitized_form(t.kind, cell.display_value),
        constant_ids: tags,
        lemma_attributes: Seq::empty(),
    }
}

/// The catalogue and quiz rows after the first `n` cells of a table row.
pub open spec fn after_cells(
    p: LoadedParadigmView,
    t: LoadedTableView,
    row: LoadedRowView,
    n: nat,
    st: (Seq<ConstantView>, Seq<QuizRowView>),
) -> (Seq<ConstantView>, Seq<QuizRowView>)
    decreases n,
{
    if n == 0 {
        st
    } else {
        let s = after_cells(p, t, row, (n - 1) as nat, st);
        let cell = row.cells[n - 1];
        if cell_skipped(cell) {
            s
        } else {
            let ct = cell_tags(s.0, p, t, row, n - 1, cell);
            (ct.0, s.1.push(cell_row(p, t, cell, ct.1)))
        }
    }
}

/// The catalogue and quiz rows after the first `m` rows of a table.
pub open spec fn after_rows(
    p: LoadedParadigmView,
    t: LoadedTableView,
    m: nat,
    st: (Seq<ConstantView>, Seq<QuizRowView>),
) -> (Seq<ConstantView>, Seq<QuizRowView>)
    decreases m,
{
    if m == 0 {
        st
    } else {
        let row = t.rows[m - 1];
        after_cells(p, t, row, row.cells.len(), after_rows(p, t, (m - 1) as nat, st))
    }
}

/// The catalogue and quiz rows after the first `k` tables of a paradigm.
pub open spec fn after_tables(
    p: LoadedParadigmView,
    k: nat,
    st: (Seq<ConstantView>, Seq<QuizRowView>),
) -> (Seq<ConstantView>, Seq<QuizRowView>)
    decreases k,
{
    if k == 0 {
        st
    } else {
        let s = after_tables(p, (k - 1) as nat, st);
        let t = p.tables[k - 1];
        if table_skipped(t) {
            s
        } else {
            after_rows(p, t, t.rows.len(), s)
        }
    }
}

/// The catalogue and the quiz rows of a paradigm, given the catalogue so far.
pub open spec fn quiz_rows_of(p: LoadedParadigmView, cs: Seq<ConstantView>) -> (Seq<ConstantView>, Seq<QuizRowView>) {
    after_tables(p, p.tables.len(), (cs, Seq::empty()))
}

/// The most constants that describing one cell of the table can add.
pub open spec fn cell_budget(t: LoadedTableView) -> nat {
    4 + heading_parts(t.heading).len()
}

/// The most constants that the first `m` rows of a table can add.
pub open spec fn rows_budget(t: LoadedTableView, m: nat) -> nat
    decreases m,
{
    if m == 0 {
        0
    } else {
        rows_budget(t, (m - 1) as nat) + t.rows[m - 1].cells.len() * cell_budget(t)
    }
}

/// The most constants that the first `k` tables of a paradigm can add.
pub open spec fn tables_budget(p: LoadedParadigmView, k: nat) -> nat
    decreases k,
{
    if k == 0 {
        0
    } else {
        tables_budget(p, (k - 1) as nat) + rows_budget(p.tables[k - 1], p.tables[k - 1].rows.len())
    }
}

/// The most constants that a paradigm can add to the catalogue.
pub open spec fn paradigm_budget(p: LoadedParadigmView) -> nat {
    tables_budget(p, p.tables.len())
}

fn column_tag_exec(
    catalog: &mut ConstantCatalog,
    constant_ids: &mut TagMap,
    table: &LoadedTable,
    idx: usize,
    category: &str,
)
    requires
        old(catalog).wf(),
        old(catalog)@.len() + 2 < i64::MAX,
    ensures
        final(catalog).wf(),
        (final(catalog)@, final(constant_ids)@) == column_tag((old(catalog)@, old(constant_ids)@), table@, idx as int, category@),
        final(catalog)@.len() <= old(catalog)@.len() + 1,
{
    if idx < table.columns.len() {
        let column = &table.columns[idx];
        insert_tag_from_key(catalog, constant_ids, category, column.key.as_str(), column.label.as_str());
    }
}

/// The tags of the quiz row for a cell, recording new constants in the catalogue.
fn describe_cell(
    catalog: &mut ConstantCatalog,
    paradigm: &LoadedParadigm,
    table: &LoadedTable,
    row: &LoadedRow,
    idx: usize,
    cell: &LoadedCell,
) -> (tags: TagMap)
    requires
        old(catalog).wf(),
        old(catalog)@.len() + cell_budget(table@) + 2 < i64::MAX,
    ensures
        final(catalog).wf(),
        (final(catalog)@, tags@) == cell_tags(old(catalog)@, paradigm@, table@, row@, idx as int, cell@),
        final(catalog)@.len() <= old(catalog)@.len() + cell_budget(table@),
{
    let mut constant_ids = TagMap::new();
    insert_known_tag(catalog, &mut constant_ids, "part_of_speech", family_canonical(paradigm.family.as_str()), family_display(paradigm.family.as_str()));
    insert_known_tag(catalog, &mut constant_ids, "type", table_type_canonical(table.kind.as_str()), table_type_display(table.kind.as_str()));
    apply_heading_tags(table.kind.as_str(), table.heading.as_str(), catalog, &mut constant_ids);
    let kind = table.kind.as_str();
    if str_eq(kind, "nominal") {
        insert_tag_from_key(catalog, &mut constant_ids, "case", row.key.as_str(), row.label.as_str());
        column_tag_exec(catalog, &mut constant_ids, table, idx, "number");
    } else if str_eq(kind, "gendered_nominal") {
        insert_tag_from_key(catalog, &mut constant_ids, "case", row.key.as_str(), row.label.as_str());
        column_tag_exec(catalog, &mut constant_ids, table, idx, "gender");
    } else if str_eq(kind, "verb") {
        insert_tag_from_key(catalog, &mut constant_ids, "person", row.key.as_str(), row.label.as_str());
        column_tag_exec(catalog, &mut constant_ids, table, idx, "number");
    } else if str_eq(kind, "participle") {
        insert_tag_from_key(catalog, &mut constant_ids, "gender", row.key.as_str(), row.label.as_str());
        if !str_eq(cell.column_key.as_str(), "form") {
            column_tag_exec(catalog, &mut constant_ids, table, idx, "voice");
        }
    } else if str_eq(kind, "infinitive") {
        if !str_eq(cell.column_key.as_str(), "form") {
            column_tag_exec(catalog, &mut constant_ids, table, idx, "voice");
        }
    }
    constant_ids
}


proof fn lemma_rows_budget_mono(t: LoadedTableView, m1: nat, m2: nat)
    requires
        m1 <= m2,
    ensures
        rows_budget(t, m1) <= rows_budget(t, m2),
    decreases m2,
{
    if m1 < m2 {
        lemma_rows_budget_mono(t, m1, (m2 - 1) as nat);
    }
}

proof fn lemma_tables_budget_mono(p: LoadedParadigmView, k1: nat, k2: nat)
    requires
        k1 <= k2,
    ensures
        tables_budget(p, k1) <= tables_budget(p, k2),
    decreases k2,
{
    if k1 < k2 {
        lemma_tables_budget_mono(p, k1, (k2 - 1) as nat);
    }
}

proof fn lemma_cells_budget_step(n: nat, c: nat, b: nat)
    requires
        n < c,
    ensures
        n * b + b <= c * b,
        (n + 1) * b == n * b + b,
{
    assert(n * b + b <= c * b) by (nonlinear_arith)
        requires
            n < c,
    ;
    assert((n + 1) * b == n * b + b) by (nonlinear_arith);
}

/// The quiz rows of a paradigm: one per non-empty cell outside derived-form,
/// dual and dual-column places, described by the constants of its table,
/// heading, row and column, which are recorded in the catalogue.
pub fn build_quiz_rows(paradigm: &LoadedParadigm, catalog: &mut ConstantCatalog) -> (rows: Vec<QuizRow>)
    requires
        old(catalog).wf(),
        old(catalog)@.len() + paradigm_budget(paradigm@) + 2 < i64::MAX,
    ensures
        final(catalog).wf(),
        (final(catalog)@, row_views(rows@)) == quiz_rows_of(paradigm@, old(catalog)@),
        final(catalog)@.len() <= old(catalog)@.len() + paradigm_budget(paradigm@),
        extends_catalog(old(catalog)@, final(catalog)@),
        forall|k: int| 0 <= k < old(catalog)@.len() ==> #[trigger] final(catalog)@[k] == old(catalog)@[k],
        rows_described(final(catalog)@, row_views(rows@), paradigm@),
{
    let ghost p = paradigm@;
    let ghost start = old(catalog)@;
    let mut rows: Vec<QuizRow> = Vec::new();
    let mut k: usize = 0;
    assert(row_views(rows@) =~= Seq::<QuizRowView>::empty());
    while k < paradigm.tables.len()
        invariant
            p == paradigm@,
            start == old(catalog)@,
            k <= paradigm.tables@.len(),
            catalog.wf(),
            start.len() + paradigm_budget(p) + 2 < i64::MAX,
            catalog@.len() <= start.len() + tables_budget(p, k as nat),
            (catalog@, row_views(rows@)) == after_tables(p, k as nat, (start, Seq::empty())),
        decreases paradigm.tables@.len() - k,
    {
        let table = &paradigm.tables[k];
        let ghost t = table@;
        let ghost base = start.len() + tables_budget(p, k as nat);
        proof {
            assert(t == p.tables[k as int]);
            lemma_tables_budget_mono(p, (k + 1) as nat, p.tables.len());
        }
        let skip = str_eq(table.kind.as_str(), "derivatives") || str_contains(table.heading.as_str(), "Dual");
        if !skip {
            let ghost s_k = (catalog@, row_views(rows@));
            let mut m: usize = 0;
            while m < table.rows.len()
                invariant
                    p == paradigm@,
                    t == table@,
                    t == p.tables[k as int],
                    k < p.tables.len(),
                    m <= table.rows@.len(),
                    catalog.wf(),
                    base == start.len() + tables_budget(p, k as nat),
                    base + rows_budget(t, t.rows.len()) + 2 < i64::MAX,
                    catalog@.len() <= base + rows_budget(t, m as nat),
                    (catalog@, row_views(rows@)) == after_rows(p, t, m as nat, s_k),
                decreases table.rows@.len() - m,
            {
                let row = &table.rows[m];
                let ghost r = row@;
                let ghost s_m = (catalog@, row_views(rows@));
                proof {
                    assert(r == t.rows[m as int]);
                    lemma_rows_budget_mono(t, (m + 1) as nat, t.rows.len());
                }
                let mut n: usize = 0;
                while n < row.cells.len()
                    invariant
                        p == paradigm@,
                        t == table@,
                        r == row@,
                        r == t.rows[m as int],
                        m < t.rows.len(),
                        n <= row.cells@.len(),
                        catalog.wf(),
                        base + rows_budget(t, (m + 1) as nat) + 2 < i64::MAX,
                        rows_budget(t, (m + 1) as nat) == rows_budget(t, m as nat) + r.cells.len() * cell_budget(t),
                        catalog@.len() <= base + rows_budget(t, m as nat) + n * cell_budget(t),
                        (catalog@, row_views(rows@)) == after_cells(p, t, r, n as nat, s_m),
                    decreases row.cells@.len() - n,
                {
                    let cell = &row.cells[n];
                    proof {
                        assert(cell@ == r.cells[n as int]);
                        lemma_cells_budget_step(n as nat, r.cells.len(), cell_budget(t));
                    }
                    let trimmed = trim_str(cell.display_value.as_str());
                    let skip_cell = trimmed.unicode_len() == 0 || str_eq(cell.display_value.as_str(), "-")
                        || str_eq(cell.column_key.as_str(), "du");
                    if !skip_cell {
                        let constant_ids = describe_cell(catalog, paradigm, table, row, n, cell);
                        let qr = QuizRow {
                            inflection_id: cell.id,
                            lemma_id: paradigm.id,
                            lemma: paradigm.title.clone(),
                            form: sanitize_quiz_form(table.kind.as_str(), cell.display_value.as_str()),
                            constant_ids,
                            lemma_attributes: LemmaAttributes::new(),
                        };
                        let ghost before = row_views(rows@);
                        rows.push(qr);
                        assert(row_views(rows@) =~= before.push(qr@));
                    }
                    n = n + 1;
                }
                m = m + 1;
            }
        }
        k = k + 1;
    }
    proof {
        law_quiz_rows_described(p, start);
    }
    rows
}


// ---------------------------------------------------------------------------
// What the quiz rows say of the catalogue
// ---------------------------------------------------------------------------

/// The catalogue `after` keeps the constants of `before` in place and only
/// adds constants after them.
pub open spec fn extends_catalog(before: Seq<ConstantView>, after: Seq<ConstantView>) -> bool {
    before.len() <= after.len() && after.take(before.len() as int) == before
}

/// The catalogue holds a constant with this id and category.
pub open spec fn names_constant(cs: Seq<ConstantView>, id: i64, category: Seq<char>) -> bool {
    exists|k: int| 0 <= k < cs.len() && (#[trigger] cs[k]).id == id && cs[k].category == category
}

/// The catalogue holds a constant with this id, category and canonical label.
pub open spec fn labels_constant(cs: Seq<ConstantView>, id: i64, category: Seq<char>, label: Seq<char>) -> bool {
    exists|k: int| 0 <= k < cs.len() && (#[trigger] cs[k]).id == id && cs[k].category == category && cs[k].label == label
}

/// Every tag of a row names a constant of the catalogue of its own category.
pub open spec fn tags_named(cs: Seq<ConstantView>, tags: Seq<(Seq<char>, i64)>) -> bool {
    forall|i: int| 0 <= i < tags.len() ==> names_constant(cs, (#[trigger] tags[i]).1, tags[i].0)
}

/// The tags bind the category to a constant with that canonical label.
pub open spec fn tag_labelled(cs: Seq<ConstantView>, tags: Seq<(Seq<char>, i64)>, category: Seq<char>, label: Seq<char>) -> bool {
    assoc_get(tags, category) matches Some(id) && labels_constant(cs, id, category, label)
}

/// The row is the quiz row of this cell of table `t`: the cell is not
/// skipped, and the row has its id and the form shown for it.
pub open spec fn row_of_cell(t: LoadedTableView, cell: LoadedCellView, r: QuizRowView) -> bool {
    &&& !cell_skipped(cell)
    &&& r.inflection_id == cell.id
    &&& r.form == sanitized_form(t.kind, cell.display_value)
}

/// The row comes from a cell of the paradigm's table `j`, a table that gives
/// quiz rows.
pub open spec fn row_in_table(p: LoadedParadigmView, j: int, r: QuizRowView) -> bool {
    &&& !table_skipped(p.tables[j])
    &&& exists|m: int, n: int|
        0 <= m < p.tables[j].rows.len() && 0 <= n < p.tables[j].rows[m].cells.len() && #[trigger] row_of_cell(
            p.tables[j],
            p.tables[j].rows[m].cells[n],
            r,
        )
}

/// The row comes from a cell of one of the paradigm's tables, and its tags
/// bind `type` to the constant for the kind of that table.
pub open spec fn table_type_tagged(cs: Seq<ConstantView>, r: QuizRowView, p: LoadedParadigmView) -> bool {
    exists|j: int|
        0 <= j < p.tables.len() && #[trigger] row_in_table(p, j, r) && tag_labelled(
            cs,
            r.constant_ids,
            "type"@,
            table_type_canonical_of(p.tables[j].kind),
        )
}

/// A quiz row of the paradigm as the catalogue describes it: each tag names a
/// constant of its category, the part of speech is the paradigm's family, and
/// the type is the kind of the table that holds the row's cell.
pub open spec fn row_described(cs: Seq<ConstantView>, r: QuizRowView, p: LoadedParadigmView) -> bool {
    &&& tags_named(cs, r.constant_ids)
    &&& tag_labelled(cs, r.constant_ids, "part_of_speech"@, family_canonical_of(p.family))
    &&& table_type_tagged(cs, r, p)
}

/// Every row is described by the catalogue.
pub open spec fn rows_described(cs: Seq<ConstantView>, rows: Seq<QuizRowView>, p: LoadedParadigmView) -> bool {
    forall|i: int| 0 <= i < rows.len() ==> row_described(cs, #[trigger] rows[i], p)
}

proof fn lemma_extends_trans(a: Seq<ConstantView>, b: Seq<ConstantView>, c: Seq<ConstantView>)
    requires
        extends_catalog(a, b),
        extends_catalog(b, c),
    ensures
        extends_catalog(a, c),
{
    assert forall|k: int| 0 <= k < a.len() implies c.take(a.len() as int)[k] == a[k] by {
        assert(c.take(b.len() as int)[k] == b[k]);
        assert(b.take(a.len() as int)[k] == a[k]);
    }
    assert(c.take(a.len() as int) =~= a);
}

proof fn lemma_extends_refl(a: Seq<ConstantView>)
    ensures
        extends_catalog(a, a),
{
    assert(a.take(a.len() as int) =~= a);
}

proof fn lemma_names_extend(a: Seq<ConstantView>, b: Seq<ConstantView>)
    requires
        extends_catalog(a, b),
    ensures
        forall|id: i64, c: Seq<char>| names_constant(a, id, c) ==> names_constant(b, id, c),
        forall|id: i64, c: Seq<char>, l: Seq<char>| labels_constant(a, id, c, l) ==> labels_constant(b, id, c, l),
        forall|t: Seq<(Seq<char>, i64)>| tags_named(a, t) ==> tags_named(b, t),
{
    assert forall|k: int| 0 <= k < a.len() implies b[k] == a[k] by {
        assert(b.take(a.len() as int)[k] == a[k]);
    }
    assert forall|id: i64, c: Seq<char>| names_constant(a, id, c) implies names_constant(b, id, c) by {
        let k = choose|k: int| 0 <= k < a.len() && (#[trigger] a[k]).id == id && a[k].category == c;
        assert(b[k] == a[k]);
    }
    assert forall|id: i64, c: Seq<char>, l: Seq<char>| labels_constant(a, id, c, l) implies labels_constant(b, id, c, l) by {
        let k = choose|k: int| 0 <= k < a.len() && (#[trigger] a[k]).id == id && a[k].category == c && a[k].label == l;
        assert(b[k] == a[k]);
    }
    assert forall|t: Seq<(Seq<char>, i64)>| tags_named(a, t) implies tags_named(b, t) by {
        assert forall|i: int| 0 <= i < t.len() implies names_constant(b, (#[trigger] t[i]).1, t[i].0) by {
            assert(names_constant(a, t[i].1, t[i].0));
        }
    }
}

proof fn lemma_rows_described_extend(a: Seq<ConstantView>, b: Seq<ConstantView>, rows: Seq<QuizRowView>, p: LoadedParadigmView)
    requires
        extends_catalog(a, b),
        rows_described(a, rows, p),
    ensures
        rows_described(b, rows, p),
{
    lemma_names_extend(a, b);
    assert forall|i: int| 0 <= i < rows.len() implies row_described(b, #[trigger] rows[i], p) by {
        let r = rows[i];
        assert(row_described(a, r, p));
        assert(tags_named(b, r.constant_ids));
        let id = assoc_get(r.constant_ids, "part_of_speech"@)->0;
        assert(labels_constant(a, id, "part_of_speech"@, family_canonical_of(p.family)));
        let j = choose|j: int|
            0 <= j < p.tables.len() && #[trigger] row_in_table(p, j, r) && tag_labelled(a, r.constant_ids, "type"@, table_type_canonical_of(p.tables[j].kind));
        let tid = assoc_get(r.constant_ids, "type"@)->0;
        assert(labels_constant(a, tid, "type"@, table_type_canonical_of(p.tables[j].kind)));
        assert(tag_labelled(b, r.constant_ids, "type"@, table_type_canonical_of(p.tables[j].kind)));
        assert(row_in_table(p, j, r));
    }
}

proof fn lemma_assoc_put_entries<V>(s: Seq<(Seq<char>, V)>, key: Seq<char>, v: V)
    ensures
        forall|i: int| 0 <= i < assoc_put(s, key, v).len() ==> #[trigger] assoc_put(s, key, v)[i] == (key, v) || s.contains(assoc_put(s, key, v)[i]),
    decreases s.len(),
{
    let r = assoc_put(s, key, v);
    if s.len() > 0 && s[0].0 != key {
        let t = s.drop_first();
        lemma_assoc_put_entries(t, key, v);
        assert forall|i: int| 0 <= i < r.len() implies #[trigger] r[i] == (key, v) || s.contains(r[i]) by {
            if i == 0 {
                assert(r[0] == s[0]);
            } else {
                assert(r[i] == assoc_put(t, key, v)[i - 1]);
                if t.contains(r[i]) {
                    let j = choose|j: int| 0 <= j < t.len() && t[j] == r[i];
                    assert(s[j + 1] == t[j]);
                }
            }
        }
    } else if s.len() > 0 {
        assert forall|i: int| 0 <= i < r.len() implies #[trigger] r[i] == (key, v) || s.contains(r[i]) by {
            if i != 0 {
                assert(r[i] == s[i]);
            }
        }
    }
}

proof fn lemma_catalog_ensure_labels(cs: Seq<ConstantView>, category: Seq<char>, canonical: Seq<char>, display_label: Seq<char>)
    ensures
        extends_catalog(cs, catalog_ensure(cs, category, canonical, display_label).0),
        labels_constant(
            catalog_ensure(cs, category, canonical, display_label).0,
            catalog_ensure(cs, category, canonical, display_label).1,
            category,
            canonical,
        ),
{
    lemma_key_index(cs, category, canonical);
    let (r, id) = catalog_ensure(cs, category, canonical, display_label);
    match key_index(cs, category, canonical) {
        Some(k) => {
            lemma_extends_refl(cs);
            assert(r[k].id == id);
        },
        None => {
            assert(r.take(cs.len() as int) =~= cs);
            let k = cs.len() as int;
            assert(r[k].id == id);
        },
    }
}

/// The tag state `r` grows out of `s`: the catalogue only gains constants,
/// tags that named constants still do, and the part of speech and the type
/// are bound as before.
pub open spec fn tags_grow(
    s: (Seq<ConstantView>, Seq<(Seq<char>, i64)>),
    r: (Seq<ConstantView>, Seq<(Seq<char>, i64)>),
) -> bool {
    &&& extends_catalog(s.0, r.0)
    &&& (tags_named(s.0, s.1) ==> tags_named(r.0, r.1))
    &&& assoc_get(r.1, "part_of_speech"@) == assoc_get(s.1, "part_of_speech"@)
    &&& assoc_get(r.1, "type"@) == assoc_get(s.1, "type"@)
}

proof fn lemma_tags_grow_trans(
    a: (Seq<ConstantView>, Seq<(Seq<char>, i64)>),
    b: (Seq<ConstantView>, Seq<(Seq<char>, i64)>),
    c: (Seq<ConstantView>, Seq<(Seq<char>, i64)>),
)
    requires
        tags_grow(a, b),
        tags_grow(b, c),
    ensures
        tags_grow(a, c),
{
    lemma_extends_trans(a.0, b.0, c.0);
}

proof fn lemma_tags_grow_refl(a: (Seq<ConstantView>, Seq<(Seq<char>, i64)>))
    ensures
        tags_grow(a, a),
{
    lemma_extends_refl(a.0);
}

proof fn lemma_known_tag(
    s: (Seq<ConstantView>, Seq<(Seq<char>, i64)>),
    category: Seq<char>,
    canonical: Seq<char>,
    display_label: Seq<char>,
)
    ensures
        extends_catalog(s.0, known_tag(s, category, canonical, display_label).0),
        tags_named(s.0, s.1) ==> tags_named(
            known_tag(s, category, canonical, display_label).0,
            known_tag(s, category, canonical, display_label).1,
        ),
        forall|d: Seq<char>|
            d != category ==> assoc_get(#[trigger] known_tag(s, category, canonical, display_label).1, d) == assoc_get(s.1, d),
        tag_labelled(
            known_tag(s, category, canonical, display_label).0,
            known_tag(s, category, canonical, display_label).1,
            category,
            canonical,
        ),
        category != "part_of_speech"@ && category != "type"@ ==> tags_grow(s, known_tag(s, category, canonical, display_label)),
{
    let (cs, id) = catalog_ensure(s.0, category, canonical, display_label);
    let r = known_tag(s, category, canonical, display_label);
    lemma_catalog_ensure_labels(s.0, category, canonical, display_label);
    lemma_names_extend(s.0, cs);
    crate::models::lemma_assoc_put(s.1, category, id, category);
    assert forall|d: Seq<char>| d != category implies assoc_get(#[trigger] known_tag(s, category, canonical, display_label).1, d) == assoc_get(s.1, d) by {
        crate::models::lemma_assoc_put(s.1, category, id, d);
    }
    if tags_named(s.0, s.1) {
        lemma_assoc_put_entries(s.1, category, id);
        let k = choose|k: int| 0 <= k < cs.len() && (#[trigger] cs[k]).id == id && cs[k].category == category && cs[k].label == canonical;
        assert forall|i: int| 0 <= i < r.1.len() implies names_constant(r.0, (#[trigger] r.1[i]).1, r.1[i].0) by {
            if r.1[i] == (category, id) {
                assert(cs[k].id == id);
            } else {
                let j = choose|j: int| 0 <= j < s.1.len() && s.1[j] == r.1[i];
                assert(names_constant(cs, s.1[j].1, s.1[j].0));
            }
        }
    }
    if category != "part_of_speech"@ && category != "type"@ {
        assert(assoc_get(r.1, "part_of_speech"@) == assoc_get(s.1, "part_of_speech"@));
        assert(assoc_get(r.1, "type"@) == assoc_get(s.1, "type"@));
    }
}

proof fn lemma_tag_categories_differ()
    ensures
        "tense"@ != "part_of_speech"@ && "tense"@ != "type"@,
        "mood"@ != "part_of_speech"@ && "mood"@ != "type"@,
        "number"@ != "part_of_speech"@ && "number"@ != "type"@,
        "voice"@ != "part_of_speech"@ && "voice"@ != "type"@,
        "case"@ != "part_of_speech"@ && "case"@ != "type"@,
        "gender"@ != "part_of_speech"@ && "gender"@ != "type"@,
        "person"@ != "part_of_speech"@ && "person"@ != "type"@,
        "type"@ != "part_of_speech"@,
{
    reveal_strlit("tense");
    reveal_strlit("mood");
    reveal_strlit("number");
    reveal_strlit("voice");
    reveal_strlit("case");
    reveal_strlit("gender");
    reveal_strlit("person");
    reveal_strlit("type");
    reveal_strlit("part_of_speech");
    assert("case"@[0] != "type"@[0]);
    assert("mood"@[0] != "type"@[0]);
    assert("tense"@[1] != "type"@[1]);
    assert("number"@[0] != "type"@[0]);
    assert("tense"@[0] != "part_of_speech"@[0]);
    assert("number"@[0] != "part_of_speech"@[0]);
    assert("person"@[1] != "part_of_speech"@[1]);
    assert("person"@[0] != "type"@[0]);
}

proof fn lemma_tag_from_key_grows(
    s: (Seq<ConstantView>, Seq<(Seq<char>, i64)>),
    category: Seq<char>,
    key: Seq<char>,
    display_label: Seq<char>,
)
    requires
        category != "part_of_speech"@,
        category != "type"@,
    ensures
        tags_grow(s, tag_from_key(s, category, key, display_label)),
{
    let canonical = canonical_of(category, key, display_label);
    lemma_known_tag(s, category, canonical, display_of(category, canonical, display_label));
}

proof fn lemma_heading_tags_grow(kind: Seq<char>, parts: Seq<Seq<char>>, s: (Seq<ConstantView>, Seq<(Seq<char>, i64)>))
    ensures
        tags_grow(s, heading_tags(kind, parts, s)),
    decreases parts.len(),
{
    lemma_tag_categories_differ();
    if parts.len() == 0 {
        lemma_tags_grow_refl(s);
    } else {
        let m = heading_tags(kind, parts.drop_last(), s);
        lemma_heading_tags_grow(kind, parts.drop_last(), s);
        let part = parts.last();
        let n = unicode_lowercase(part);
        if tense_word(n) {
            lemma_known_tag(m, "tense"@, n, part);
        } else if mood_word(n) {
            lemma_known_tag(m, "mood"@, n, part);
        } else if n == "singular forms"@ {
            lemma_known_tag(m, "number"@, "singular"@, "Singular"@);
        } else if n == "dual forms"@ {
            lemma_known_tag(m, "number"@, "dual"@, "Dual"@);
        } else if n == "plural forms"@ {
            lemma_known_tag(m, "number"@, "plural"@, "Plural"@);
        } else if voice_word(n) && voice_table(kind) {
            let names = voice_names(n, part);
            lemma_known_tag(m, "voice"@, names.0, names.1);
        } else {
            lemma_tags_grow_refl(m);
        }
        lemma_tags_grow_trans(s, m, heading_tags(kind, parts, s));
    }
}

proof fn lemma_column_tag_grows(
    s: (Seq<ConstantView>, Seq<(Seq<char>, i64)>),
    t: LoadedTableView,
    idx: int,
    category: Seq<char>,
)
    requires
        category != "part_of_speech"@,
        category != "type"@,
    ensures
        tags_grow(s, column_tag(s, t, idx, category)),
{
    if 0 <= idx < t.columns.len() {
        lemma_tag_from_key_grows(s, category, t.columns[idx].key, t.columns[idx].label);
    } else {
        lemma_tags_grow_refl(s);
    }
}

proof fn lemma_kind_tags_grow(
    s: (Seq<ConstantView>, Seq<(Seq<char>, i64)>),
    t: LoadedTableView,
    row: LoadedRowView,
    idx: int,
    cell: LoadedCellView,
)
    ensures
        tags_grow(s, kind_tags(s, t, row, idx, cell)),
{
    lemma_tag_categories_differ();
    if t.kind == "nominal"@ {
        let s1 = tag_from_key(s, "case"@, row.key, row.label);
        lemma_tag_from_key_grows(s, "case"@, row.key, row.label);
        lemma_column_tag_grows(s1, t, idx, "number"@);
        lemma_tags_grow_trans(s, s1, column_tag(s1, t, idx, "number"@));
    } else if t.kind == "gendered_nominal"@ {
        let s1 = tag_from_key(s, "case"@, row.key, row.label);
        lemma_tag_from_key_grows(s, "case"@, row.key, row.label);
        lemma_column_tag_grows(s1, t, idx, "gender"@);
        lemma_tags_grow_trans(s, s1, column_tag(s1, t, idx, "gender"@));
    } else if t.kind == "verb"@ {
        let s1 = tag_from_key(s, "person"@, row.key, row.label);
        lemma_tag_from_key_grows(s, "person"@, row.key, row.label);
        lemma_column_tag_grows(s1, t, idx, "number"@);
        lemma_tags_grow_trans(s, s1, column_tag(s1, t, idx, "number"@));
    } else if t.kind == "participle"@ {
        let s1 = tag_from_key(s, "gender"@, row.key, row.label);
        lemma_tag_from_key_grows(s, "gender"@, row.key, row.label);
        if cell.column_key != "form"@ {
            lemma_column_tag_grows(s1, t, idx, "voice"@);
            lemma_tags_grow_trans(s, s1, column_tag(s1, t, idx, "voice"@));
        }
    } else if t.kind == "infinitive"@ {
        if cell.column_key != "form"@ {
            lemma_column_tag_grows(s, t, idx, "voice"@);
        } else {
            lemma_tags_grow_refl(s);
        }
    } else {
        lemma_tags_grow_refl(s);
    }
}

proof fn lemma_cell_tags(
    cs: Seq<ConstantView>,
    p: LoadedParadigmView,
    t: LoadedTableView,
    row: LoadedRowView,
    idx: int,
    cell: LoadedCellView,
)
    ensures
        extends_catalog(cs, cell_tags(cs, p, t, row, idx, cell).0),
        tags_named(cell_tags(cs, p, t, row, idx, cell).0, cell_tags(cs, p, t, row, idx, cell).1),
        tag_labelled(
            cell_tags(cs, p, t, row, idx, cell).0,
            cell_tags(cs, p, t, row, idx, cell).1,
            "part_of_speech"@,
            family_canonical_of(p.family),
        ),
        tag_labelled(
            cell_tags(cs, p, t, row, idx, cell).0,
            cell_tags(cs, p, t, row, idx, cell).1,
            "type"@,
            table_type_canonical_of(t.kind),
        ),
{
    let s0: (Seq<ConstantView>, Seq<(Seq<char>, i64)>) = (cs, Seq::empty());
    let s1 = known_tag(s0, "part_of_speech"@, family_canonical_of(p.family), family_display_of(p.family));
    let s2 = known_tag(s1, "type"@, table_type_canonical_of(t.kind), table_type_display_of(t.kind));
    let s3 = heading_tags(t.kind, heading_parts(t.heading), s2);
    let s4 = kind_tags(s3, t, row, idx, cell);
    lemma_tag_categories_differ();
    assert(tags_named(s0.0, s0.1));
    lemma_known_tag(s0, "part_of_speech"@, family_canonical_of(p.family), family_display_of(p.family));
    lemma_known_tag(s1, "type"@, table_type_canonical_of(t.kind), table_type_display_of(t.kind));
    assert(assoc_get(s2.1, "part_of_speech"@) == assoc_get(s1.1, "part_of_speech"@));
    lemma_names_extend(s1.0, s2.0);
    lemma_heading_tags_grow(t.kind, heading_parts(t.heading), s2);
    lemma_kind_tags_grow(s3, t, row, idx, cell);
    lemma_tags_grow_trans(s2, s3, s4);
    lemma_names_extend(s2.0, s4.0);
    lemma_extends_trans(s0.0, s1.0, s2.0);
    lemma_extends_trans(s0.0, s2.0, s4.0);
}

proof fn lemma_after_cells(
    p: LoadedParadigmView,
    j: int,
    mi: int,
    n: nat,
    st: (Seq<ConstantView>, Seq<QuizRowView>),
)
    requires
        0 <= j < p.tables.len(),
        !table_skipped(p.tables[j]),
        0 <= mi < p.tables[j].rows.len(),
        n <= p.tables[j].rows[mi].cells.len(),
        rows_described(st.0, st.1, p),
    ensures
        extends_catalog(st.0, after_cells(p, p.tables[j], p.tables[j].rows[mi], n, st).0),
        rows_described(
            after_cells(p, p.tables[j], p.tables[j].rows[mi], n, st).0,
            after_cells(p, p.tables[j], p.tables[j].rows[mi], n, st).1,
            p,
        ),
    decreases n,
{
    let t = p.tables[j];
    let row = t.rows[mi];
    if n == 0 {
        lemma_extends_refl(st.0);
    } else {
        let s = after_cells(p, t, row, (n - 1) as nat, st);
        lemma_after_cells(p, j, mi, (n - 1) as nat, st);
        let cell = row.cells[n - 1];
        if !cell_skipped(cell) {
            let ct = cell_tags(s.0, p, t, row, n - 1, cell);
            lemma_cell_tags(s.0, p, t, row, n - 1, cell);
            lemma_rows_described_extend(s.0, ct.0, s.1, p);
            let nr = cell_row(p, t, cell, ct.1);
            assert(row_described(ct.0, nr, p)) by {
                assert(row_of_cell(p.tables[j], p.tables[j].rows[mi].cells[n - 1], nr));
                assert(row_in_table(p, j, nr));
                assert(tag_labelled(ct.0, nr.constant_ids, "type"@, table_type_canonical_of(p.tables[j].kind)));
            }
            let rows = s.1.push(nr);
            assert forall|i: int| 0 <= i < rows.len() implies row_described(ct.0, #[trigger] rows[i], p) by {
                if i < s.1.len() {
                    assert(rows[i] == s.1[i]);
                }
            }
            lemma_extends_trans(st.0, s.0, ct.0);
        }
    }
}

proof fn lemma_after_rows(p: LoadedParadigmView, j: int, m: nat, st: (Seq<ConstantView>, Seq<QuizRowView>))
    requires
        0 <= j < p.tables.len(),
        !table_skipped(p.tables[j]),
        m <= p.tables[j].rows.len(),
        rows_described(st.0, st.1, p),
    ensures
        extends_catalog(st.0, after_rows(p, p.tables[j], m, st).0),
        rows_described(after_rows(p, p.tables[j], m, st).0, after_rows(p, p.tables[j], m, st).1, p),
    decreases m,
{
    let t = p.tables[j];
    if m == 0 {
        lemma_extends_refl(st.0);
    } else {
        let s = after_rows(p, t, (m - 1) as nat, st);
        lemma_after_rows(p, j, (m - 1) as nat, st);
        let row = t.rows[m - 1];
        lemma_after_cells(p, j, m - 1, row.cells.len(), s);
        lemma_extends_trans(st.0, s.0, after_rows(p, t, m, st).0);
    }
}

proof fn lemma_after_tables(p: LoadedParadigmView, k: nat, st: (Seq<ConstantView>, Seq<QuizRowView>))
    requires
        k <= p.tables.len(),
        rows_described(st.0, st.1, p),
    ensures
        extends_catalog(st.0, after_tables(p, k, st).0),
        rows_described(after_tables(p, k, st).0, after_tables(p, k, st).1, p),
    decreases k,
{
    if k == 0 {
        lemma_extends_refl(st.0);
    } else {
        let s = after_tables(p, (k - 1) as nat, st);
        lemma_after_tables(p, (k - 1) as nat, st);
        let t = p.tables[k - 1];
        if !table_skipped(t) {
            lemma_after_rows(p, k - 1, t.rows.len(), s);
            lemma_extends_trans(st.0, s.0, after_tables(p, k, st).0);
        }
    }
}

/// Building the quiz rows of a paradigm only adds constants to the
/// catalogue, after those it held, which stay unchanged; and each row is
/// described by the catalogue it leaves: every tag names a constant of that
/// category, the part of speech is the constant for the paradigm's family,
/// and the type the constant for the kind of the table that holds the row's
/// cell, the cell whose id and shown form the row carries.
pub proof fn law_quiz_rows_described(p: LoadedParadigmView, cs: Seq<ConstantView>)
    ensures
        extends_catalog(cs, quiz_rows_of(p, cs).0),
        forall|k: int| 0 <= k < cs.len() ==> #[trigger] quiz_rows_of(p, cs).0[k] == cs[k],
        rows_described(quiz_rows_of(p, cs).0, quiz_rows_of(p, cs).1, p),
{
    lemma_after_tables(p, p.tables.len(), (cs, Seq::empty()));
    let after = quiz_rows_of(p, cs).0;
    assert forall|k: int| 0 <= k < cs.len() implies #[trigger] after[k] == cs[k] by {
        assert(after.take(cs.len() as int)[k] == cs[k]);
    }
}

proof fn lemma_catalog_ensure_wf(cs: Seq<ConstantView>, category: Seq<char>, canonical: Seq<char>, display_label: Seq<char>)
    requires
        catalog_wf(cs),
        cs.len() < i64::MAX,
    ensures
        catalog_wf(catalog_ensure(cs, category, canonical, display_label).0),
        catalog_ensure(cs, category, canonical, display_label).0.len() <= cs.len() + 1,
{
    lemma_key_index(cs, category, canonical);
    let r = catalog_ensure(cs, category, canonical, display_label).0;
    if key_index(cs, category, canonical) is None {
        assert forall|k: int| 0 <= k < r.len() implies (#[trigger] r[k]).id == k + 1 by {
            if k < cs.len() {
                assert(r[k] == cs[k]);
            }
        }
        assert forall|i: int, j: int| 0 <= i < j < r.len() implies !((#[trigger] r[i]).category == (#[trigger] r[j]).category
            && r[i].label == r[j].label) by {
            assert(r[i] == cs[i]);
            if j < cs.len() {
                assert(r[j] == cs[j]);
            }
        }
        assert forall|k: int| 0 <= k < r.len() implies (#[trigger] r[k]).sort_order == sort_order_of(r[k].category, r[k].label) by {
            if k < cs.len() {
                assert(r[k] == cs[k]);
            }
        }
    }
}

proof fn lemma_known_tag_wf(s: (Seq<ConstantView>, Seq<(Seq<char>, i64)>), category: Seq<char>, canonical: Seq<char>, display_label: Seq<char>)
    requires
        catalog_wf(s.0),
        s.0.len() < i64::MAX,
    ensures
        catalog_wf(known_tag(s, category, canonical, display_label).0),
        known_tag(s, category, canonical, display_label).0.len() <= s.0.len() + 1,
{
    lemma_catalog_ensure_wf(s.0, category, canonical, display_label);
}

proof fn lemma_tag_from_key_wf(s: (Seq<ConstantView>, Seq<(Seq<char>, i64)>), category: Seq<char>, key: Seq<char>, display_label: Seq<char>)
    requires
        catalog_wf(s.0),
        s.0.len() < i64::MAX,
    ensures
        catalog_wf(tag_from_key(s, category, key, display_label).0),
        tag_from_key(s, category, key, display_label).0.len() <= s.0.len() + 1,
{
    let canonical = canonical_of(category, key, display_label);
    lemma_known_tag_wf(s, category, canonical, display_of(category, canonical, display_label));
}

proof fn lemma_heading_tags_wf(kind: Seq<char>, parts: Seq<Seq<char>>, s: (Seq<ConstantView>, Seq<(Seq<char>, i64)>))
    requires
        catalog_wf(s.0),
        s.0.len() + parts.len() < i64::MAX,
    ensures
        catalog_wf(heading_tags(kind, parts, s).0),
        heading_tags(kind, parts, s).0.len() <= s.0.len() + parts.len(),
    decreases parts.len(),
{
    if parts.len() > 0 {
        let m = heading_tags(kind, parts.drop_last(), s);
        lemma_heading_tags_wf(kind, parts.drop_last(), s);
        let part = parts.last();
        let n = unicode_lowercase(part);
        if tense_word(n) {
            lemma_known_tag_wf(m, "tense"@, n, part);
        } else if mood_word(n) {
            lemma_known_tag_wf(m, "mood"@, n, part);
        } else if n == "singular forms"@ {
            lemma_known_tag_wf(m, "number"@, "singular"@, "Singular"@);
        } else if n == "dual forms"@ {
            lemma_known_tag_wf(m, "number"@, "dual"@, "Dual"@);
        } else if n == "plural forms"@ {
            lemma_known_tag_wf(m, "number"@, "plural"@, "Plural"@);
        } else if voice_word(n) && voice_table(kind) {
            let names = voice_names(n, part);
            lemma_known_tag_wf(m, "voice"@, names.0, names.1);
        }
    }
}

proof fn lemma_column_tag_wf(s: (Seq<ConstantView>, Seq<(Seq<char>, i64)>), t: LoadedTableView, idx: int, category: Seq<char>)
    requires
        catalog_wf(s.0),
        s.0.len() < i64::MAX,
    ensures
        catalog_wf(column_tag(s, t, idx, category).0),
        column_tag(s, t, idx, category).0.len() <= s.0.len() + 1,
{
    if 0 <= idx < t.columns.len() {
        lemma_tag_from_key_wf(s, category, t.columns[idx].key, t.columns[idx].label);
    }
}

proof fn lemma_kind_tags_wf(
    s: (Seq<ConstantView>, Seq<(Seq<char>, i64)>),
    t: LoadedTableView,
    row: LoadedRowView,
    idx: int,
    cell: LoadedCellView,
)
    requires
        catalog_wf(s.0),
        s.0.len() + 2 < i64::MAX,
    ensures
        catalog_wf(kind_tags(s, t, row, idx, cell).0),
        kind_tags(s, t, row, idx, cell).0.len() <= s.0.len() + 2,
{
    if t.kind == "nominal"@ || t.kind == "gendered_nominal"@ {
        let s1 = tag_from_key(s, "case"@, row.key, row.label);
        lemma_tag_from_key_wf(s, "case"@, row.key, row.label);
        lemma_column_tag_wf(s1, t, idx, "number"@);
        lemma_column_tag_wf(s1, t, idx, "gender"@);
    } else if t.kind == "verb"@ {
        let s1 = tag_from_key(s, "person"@, row.key, row.label);
        lemma_tag_from_key_wf(s, "person"@, row.key, row.label);
        lemma_column_tag_wf(s1, t, idx, "number"@);
    } else if t.kind == "participle"@ {
        let s1 = tag_from_key(s, "gender"@, row.key, row.label);
        lemma_tag_from_key_wf(s, "gender"@, row.key, row.label);
        lemma_column_tag_wf(s1, t, idx, "voice"@);
    } else if t.kind == "infinitive"@ {
        lemma_column_tag_wf(s, t, idx, "voice"@);
    }
}

proof fn lemma_cell_tags_wf(
    cs: Seq<ConstantView>,
    p: LoadedParadigmView,
    t: LoadedTableView,
    row: LoadedRowView,
    idx: int,
    cell: LoadedCellView,
)
    requires
        catalog_wf(cs),
        cs.len() + cell_budget(t) < i64::MAX,
    ensures
        catalog_wf(cell_tags(cs, p, t, row, idx, cell).0),
        cell_tags(cs, p, t, row, idx, cell).0.len() <= cs.len() + cell_budget(t),
{
    let s0: (Seq<ConstantView>, Seq<(Seq<char>, i64)>) = (cs, Seq::empty());
    let s1 = known_tag(s0, "part_of_speech"@, family_canonical_of(p.family), family_display_of(p.family));
    let s2 = known_tag(s1, "type"@, table_type_canonical_of(t.kind), table_type_display_of(t.kind));
    let s3 = heading_tags(t.kind, heading_parts(t.heading), s2);
    lemma_known_tag_wf(s0, "part_of_speech"@, family_canonical_of(p.family), family_display_of(p.family));
    lemma_known_tag_wf(s1, "type"@, table_type_canonical_of(t.kind), table_type_display_of(t.kind));
    lemma_heading_tags_wf(t.kind, heading_parts(t.heading), s2);
    lemma_kind_tags_wf(s3, t, row, idx, cell);
}

proof fn lemma_after_cells_wf(p: LoadedParadigmView, t: LoadedTableView, row: LoadedRowView, n: nat, st: (Seq<ConstantView>, Seq<QuizRowView>))
    requires
        n <= row.cells.len(),
        catalog_wf(st.0),
        st.0.len() + n * cell_budget(t) < i64::MAX,
    ensures
        catalog_wf(after_cells(p, t, row, n, st).0),
        after_cells(p, t, row, n, st).0.len() <= st.0.len() + n * cell_budget(t),
    decreases n,
{
    if n > 0 {
        let b = cell_budget(t);
        assert(n * b == (n - 1) * b + b) by (nonlinear_arith)
            requires
                n > 0,
        ;
        assert((n - 1) * b >= 0) by (nonlinear_arith)
            requires
                n > 0,
        ;
        let s = after_cells(p, t, row, (n - 1) as nat, st);
        lemma_after_cells_wf(p, t, row, (n - 1) as nat, st);
        let cell = row.cells[n - 1];
        if !cell_skipped(cell) {
            lemma_cell_tags_wf(s.0, p, t, row, n - 1, cell);
        }
    }
}

proof fn lemma_after_rows_wf(p: LoadedParadigmView, t: LoadedTableView, m: nat, st: (Seq<ConstantView>, Seq<QuizRowView>))
    requires
        m <= t.rows.len(),
        catalog_wf(st.0),
        st.0.len() + rows_budget(t, m) < i64::MAX,
    ensures
        catalog_wf(after_rows(p, t, m, st).0),
        after_rows(p, t, m, st).0.len() <= st.0.len() + rows_budget(t, m),
    decreases m,
{
    if m > 0 {
        let row = t.rows[m - 1];
        let b = cell_budget(t);
        let c = row.cells.len();
        assert(c * b >= 0) by (nonlinear_arith);
        let s = after_rows(p, t, (m - 1) as nat, st);
        lemma_after_rows_wf(p, t, (m - 1) as nat, st);
        lemma_after_cells_wf(p, t, row, c, s);
    }
}

proof fn lemma_after_tables_wf(p: LoadedParadigmView, k: nat, st: (Seq<ConstantView>, Seq<QuizRowView>))
    requires
        k <= p.tables.len(),
        catalog_wf(st.0),
        st.0.len() + tables_budget(p, k) < i64::MAX,
    ensures
        catalog_wf(after_tables(p, k, st).0),
        after_tables(p, k, st).0.len() <= st.0.len() + tables_budget(p, k),
    decreases k,
{
    if k > 0 {
        let s = after_tables(p, (k - 1) as nat, st);
        lemma_after_tables_wf(p, (k - 1) as nat, st);
        let t = p.tables[k - 1];
        if !table_skipped(t) {
            lemma_after_rows_wf(p, t, t.rows.len(), s);
        }
    }
}

/// Building the quiz rows keeps a catalogue well formed, within the paradigm's budget.
pub proof fn lemma_quiz_rows_wf(p: LoadedParadigmView, cs: Seq<ConstantView>)
    requires
        catalog_wf(cs),
        cs.len() + paradigm_budget(p) < i64::MAX,
    ensures
        catalog_wf(quiz_rows_of(p, cs).0),
        quiz_rows_of(p, cs).0.len() <= cs.len() + paradigm_budget(p),
{
    lemma_after_tables_wf(p, p.tables.len(), (cs, Seq::empty()));
}

/// The cell texts of a row outside the dual column.
pub open spec fn kept_cell_values(cells: Seq<LoadedCellView>) -> Seq<Seq<char>>
    decreases cells.len(),
{
    if cells.len() == 0 {
        Seq::empty()
    } else if cells.last().column_key != "du"@ {
        kept_cell_values(cells.drop_last()).push(cells.last().display_value)
    } else {
        kept_cell_values(cells.drop_last())
    }
}

/// The short labels of the columns other than the dual one.
pub open spec fn kept_column_labels(columns: Seq<LoadedColumnView>) -> Seq<Seq<char>>
    decreases columns.len(),
{
    if columns.len() == 0 {
        Seq::empty()
    } else if columns.last().key != "du"@ {
        kept_column_labels(columns.drop_last()).push(shortened_label(columns.last().label))
    } else {
        kept_column_labels(columns.drop_last())
    }
}

/// A displayed row: the short row label and the cell texts outside the dual column.
pub open spec fn stem_row_of(r: LoadedRowView) -> (Seq<char>, Seq<Seq<char>>) {
    (shortened_label(r.label), kept_cell_values(r.cells))
}

/// A displayed table: heading parts, short column labels, rows.
pub open spec fn stem_table_of(t: LoadedTableView) -> (Seq<Seq<char>>, Seq<Seq<char>>, Seq<(Seq<char>, Seq<Seq<char>>)>) {
    (heading_parts(t.heading), kept_column_labels(t.columns), t.rows.map_values(|r: LoadedRowView| stem_row_of(r)))
}

/// The displayed tables: those whose heading does not mention the dual.
pub open spec fn stem_tables_of(tables: Seq<LoadedTableView>) -> Seq<(Seq<Seq<char>>, Seq<Seq<char>>, Seq<(Seq<char>, Seq<Seq<char>>)>)>
    decreases tables.len(),
{
    if tables.len() == 0 {
        Seq::empty()
    } else if !contains_seq(tables.last().heading, "Dual"@) {
        stem_tables_of(tables.drop_last()).push(stem_table_of(tables.last()))
    } else {
        stem_tables_of(tables.drop_last())
    }
}

/// The displayed form of a paradigm.
pub open spec fn stem_view_of(p: LoadedParadigmView) -> (Seq<char>, Seq<Seq<char>>, Seq<Seq<char>>, Seq<(Seq<Seq<char>>, Seq<Seq<char>>, Seq<(Seq<char>, Seq<Seq<char>>)>)>) {
    (p.title, Seq::empty(), seq![family_display_of(p.family)], stem_tables_of(p.tables))
}

fn push_str_owned(v: &mut Vec<String>, x: String)
    ensures
        final(v).deep_view() == old(v).deep_view().push(x@),
{
    v.push(x);
    assert(v.deep_view() =~= old(v).deep_view().push(x@));
}

fn stem_table_exec(t: &LoadedTable) -> (r: StemTable)
    ensures
        stem_table_view(r) == stem_table_of(t@),
{
    let ghost tv = t@;
    let mut columns: Vec<String> = Vec::new();
    let mut i: usize = 0;
    assert(tv.columns.take(0) =~= Seq::<LoadedColumnView>::empty());
    while i < t.columns.len()
        invariant
            tv == t@,
            i <= t.columns@.len(),
            columns.deep_view() == kept_column_labels(tv.columns.take(i as int)),
        decreases t.columns@.len() - i,
    {
        assert(tv.columns.take(i + 1).drop_last() =~= tv.columns.take(i as int));
        let c = &t.columns[i];
        if !str_eq(c.key.as_str(), "du") {
            push_str_owned(&mut columns, shorten_axis_label(c.label.as_str()));
        }
        i = i + 1;
    }
    assert(tv.columns.take(i as int) =~= tv.columns);
    let mut rows: Vec<StemTableRow> = Vec::new();
    let mut m: usize = 0;
    while m < t.rows.len()
        invariant
            tv == t@,
            m <= t.rows@.len(),
            rows@.map_values(|r: StemTableRow| stem_row_view(r)) == tv.rows.map_values(|r: LoadedRowView| stem_row_of(r)).take(m as int),
        decreases t.rows@.len() - m,
    {
        let row = &t.rows[m];
        let ghost rv = row@;
        let mut cells: Vec<String> = Vec::new();
        let mut n: usize = 0;
        assert(rv.cells.take(0) =~= Seq::<LoadedCellView>::empty());
        while n < row.cells.len()
            invariant
                rv == row@,
                n <= row.cells@.len(),
                cells.deep_view() == kept_cell_values(rv.cells.take(n as int)),
            decreases row.cells@.len() - n,
        {
            assert(rv.cells.take(n + 1).drop_last() =~= rv.cells.take(n as int));
            let c = &row.cells[n];
            if !str_eq(c.column_key.as_str(), "du") {
                push_str_owned(&mut cells, c.display_value.clone());
            }
            n = n + 1;
        }
        assert(rv.cells.take(n as int) =~= rv.cells);
        let sr = StemTableRow { label: shorten_axis_label(row.label.as_str()), cells };
        let ghost before = rows@.map_values(|r: StemTableRow| stem_row_view(r));
        rows.push(sr);
        assert(rows@.map_values(|r: StemTableRow| stem_row_view(r)) =~= before.push(stem_row_view(sr)));
        m = m + 1;
        assert(rows@.map_values(|r: StemTableRow| stem_row_view(r)) =~= tv.rows.map_values(|r: LoadedRowView| stem_row_of(r)).take(m as int));
    }
    assert(tv.rows.map_values(|r: LoadedRowView| stem_row_of(r)).take(m as int) =~= tv.rows.map_values(|r: LoadedRowView| stem_row_of(r)));
    StemTable { heading: split_heading(t.heading.as_str()), columns, rows }
}

/// The displayed form of a paradigm: its tables without the dual ones and
/// without dual columns, with short axis labels.
pub fn build_stem_view(paradigm: &LoadedParadigm) -> (r: StemView)
    ensures
        stem_view_view(r) == stem_view_of(paradigm@),
{
    let ghost p = paradigm@;
    let mut tables: Vec<StemTable> = Vec::new();
    let mut k: usize = 0;
    assert(p.tables.take(0) =~= Seq::<LoadedTableView>::empty());
    assert(tables@.map_values(|t: StemTable| stem_table_view(t)) =~= stem_tables_of(Seq::<LoadedTableView>::empty()));
    while k < paradigm.tables.len()
        invariant
            p == paradigm@,
            k <= paradigm.tables@.len(),
            tables@.map_values(|t: StemTable| stem_table_view(t)) == stem_tables_of(p.tables.take(k as int)),
        decreases paradigm.tables@.len() - k,
    {
        assert(p.tables.take(k + 1).drop_last() =~= p.tables.take(k as int));
        let t = &paradigm.tables[k];
        if !str_contains(t.heading.as_str(), "Dual") {
            let st = stem_table_exec(t);
            let ghost before = tables@.map_values(|t: StemTable| stem_table_view(t));
            tables.push(st);
            assert(tables@.map_values(|t: StemTable| stem_table_view(t)) =~= before.push(stem_table_view(st)));
        }
        k = k + 1;
    }
    assert(p.tables.take(k as int) =~= p.tables);
    let mut common_tags: Vec<String> = Vec::new();
    push_str_owned(&mut common_tags, string_from_str(family_display(paradigm.family.as_str())));
    let r = StemView { lemma: paradigm.title.clone(), stemtypes: Vec::new(), common_tags, tables };
    assert(r.stemtypes.deep_view() =~= Seq::<Seq<char>>::empty());
    assert(r.common_tags.deep_view() =~= seq![family_display_of(p.family)]);
    r
}

} // verus!
