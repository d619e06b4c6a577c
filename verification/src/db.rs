//! The quiz database: the catalogue, the quiz rows, the filter sections and
//! the displayed paradigms built from the loaded paradigms, with the queries
//! that the trainer makes of them.
use std::collections::BTreeSet;
use vstd::prelude::*;

use crate::catalog::{
    build_quiz_rows, build_stem_view, catalog_wf, cell_budget, lemma_quiz_rows_wf, paradigm_budget, quiz_rows_of, rows_budget,
    stem_view_of, tables_budget, ConstantCatalog, LoadedParadigm, LoadedParadigmView,
};
use crate::filters::{build_filter_sections, filter_sections_of, matches_filters, row_matches};
use crate::models::{
    assoc_get, row_views, section_views, stem_view_view, ConstantTable, ConstantView, FilterSection,
    FilterModel, FilterSectionView, FilterState, LemmaOption, QuizRow, QuizRowView, StemView,
};
use crate::quiz::{is_order, lex_le, lex_le_chars, random_order};
use crate::tags::{heading_parts, split_heading};
use crate::text::{chars_of, str_eq, to_lowercase, unicode_lowercase};

verus! {

broadcast use vstd::std_specs::btree::group_btree_axioms, vstd::laws_cmp::group_laws_cmp;

/// The plain contents of a displayed paradigm: lemma, stem types, common
/// tags and tables.
pub type StemModel = (
    Seq<char>,
    Seq<Seq<char>>,
    Seq<Seq<char>>,
    Seq<(Seq<Seq<char>>, Seq<Seq<char>>, Seq<(Seq<char>, Seq<Seq<char>>)>)>,
);

/// Why the database could not be built.
#[derive(Debug, PartialEq, Eq)]
pub enum DatabaseError {
    /// The paradigms could describe more constants than ids can number.
    TooManyConstants,
}

// ---------------------------------------------------------------------------
// Lists keyed by lemma id
// ---------------------------------------------------------------------------

/// The value of the first entry with the given id.
pub open spec fn id_get<V>(s: Seq<(i64, V)>, id: i64) -> Option<V>
    decreases s.len(),
{
    if s.len() == 0 {
        None
    } else if s[0].0 == id {
        Some(s[0].1)
    } else {
        id_get(s.drop_first(), id)
    }
}

/// `s` with `id` bound to `v`: the entry with that id replaced in place, or a
/// new entry at the end.
pub open spec fn id_put<V>(s: Seq<(i64, V)>, id: i64, v: V) -> Seq<(i64, V)>
    decreases s.len(),
{
    if s.len() == 0 {
        seq![(id, v)]
    } else if s[0].0 == id {
        s.update(0, (id, v))
    } else {
        seq![s[0]] + id_put(s.drop_first(), id, v)
    }
}

/// Looking an id up after binding it gives the bound value; other ids are
/// not affected.
pub proof fn lemma_id_put<V>(s: Seq<(i64, V)>, id: i64, v: V, other: i64)
    ensures
        id_get(id_put(s, id, v), id) == Some(v),
        other != id ==> id_get(id_put(s, id, v), other) == id_get(s, other),
    decreases s.len(),
{
    let r = id_put(s, id, v);
    if s.len() == 0 {
        assert(r.drop_first() =~= s);
    } else if s[0].0 == id {
        assert(r.drop_first() =~= s.drop_first());
    } else {
        lemma_id_put(s.drop_first(), id, v, other);
        assert(r.drop_first() =~= id_put(s.drop_first(), id, v));
    }
}

proof fn lemma_id_put_split<V>(s: Seq<(i64, V)>, id: i64, v: V, i: int)
    requires
        0 <= i <= s.len(),
        forall|j: int| 0 <= j < i ==> s[j].0 != id,
    ensures
        id_put(s, id, v) == s.take(i) + id_put(s.skip(i), id, v),
    decreases i,
{
    if i == 0 {
        assert(s.take(0) + id_put(s.skip(0), id, v) =~= id_put(s, id, v)) by {
            assert(s.skip(0) =~= s);
        }
    } else {
        let t = s.drop_first();
        assert forall|j: int| 0 <= j < i - 1 implies t[j].0 != id by {
            assert(t[j] == s[j + 1]);
        }
        lemma_id_put_split(t, id, v, i - 1);
        assert(t.skip(i - 1) =~= s.skip(i));
        assert(seq![s[0]] + t.take(i - 1) =~= s.take(i));
        assert(seq![s[0]] + (t.take(i - 1) + id_put(s.skip(i), id, v)) =~= s.take(i) + id_put(s.skip(i), id, v));
    }
}

/// The plain contents of the displayed paradigms, keyed by lemma id.
pub open spec fn stem_entries(s: Seq<(i64, StemView)>) -> Seq<(i64, StemModel)> {
    s.map_values(|e: (i64, StemView)| (e.0, stem_view_view(e.1)))
}

fn put_stem(stems: &mut Vec<(i64, StemView)>, id: i64, v: StemView)
    ensures
        stem_entries(final(stems)@) == id_put(stem_entries(old(stems)@), id, stem_view_view(v)),
{
    let ghost s = stem_entries(stems@);
    let mut i: usize = 0;
    while i < stems.len()
        invariant
            s == stem_entries(stems@),
            s == stem_entries(old(stems)@),
            s.len() == stems@.len(),
            i <= s.len(),
            forall|j: int| 0 <= j < i ==> s[j].0 != id,
        decreases s.len() - i,
    {
        if stems[i].0 == id {
            let ghost sv = stem_view_view(v);
            proof {
                lemma_id_put_split(s, id, sv, i as int);
                assert(s.skip(i as int)[0].0 == id);
                assert(id_put(s.skip(i as int), id, sv) == s.skip(i as int).update(0, (id, sv)));
                assert(s.take(i as int) + s.skip(i as int).update(0, (id, sv)) =~= s.update(i as int, (id, sv)));
            }
            stems.set(i, (id, v));
            assert(stem_entries(stems@) =~= s.update(i as int, (id, sv)));
            return;
        }
        i = i + 1;
    }
    proof {
        lemma_id_put_split(s, id, stem_view_view(v), i as int);
        assert(s.skip(i as int) =~= Seq::<(i64, StemModel)>::empty());
        assert(s.take(i as int) =~= s);
    }
    stems.push((id, v));
    assert(stem_entries(stems@) =~= s + seq![(id, stem_view_view(v))]);
}

// ---------------------------------------------------------------------------
// Building the database
// ---------------------------------------------------------------------------

/// The plain contents of a `Database`.
pub struct DatabaseView {
    pub constants: Seq<ConstantView>,
    pub sections: Seq<FilterSectionView>,
    pub rows: Seq<QuizRowView>,
    pub stems: Seq<(i64, StemModel)>,
}

/// The catalogue, rows and displayed paradigms after loading the paradigms in
/// order: each paradigm adds its quiz rows, records its constants in the
/// catalogue, and binds its id to its displayed form.
pub open spec fn loaded(ps: Seq<LoadedParadigmView>) -> (Seq<ConstantView>, Seq<QuizRowView>, Seq<(i64, StemModel)>)
    decreases ps.len(),
{
    if ps.len() == 0 {
        (Seq::empty(), Seq::empty(), Seq::empty())
    } else {
        let prev = loaded(ps.drop_last());
        let p = ps.last();
        let built = quiz_rows_of(p, prev.0);
        (built.0, prev.1 + built.1, id_put(prev.2, p.id, stem_view_of(p)))
    }
}

/// The database of the loaded paradigms.
pub open spec fn database_of(ps: Seq<LoadedParadigmView>) -> DatabaseView {
    let l = loaded(ps);
    DatabaseView { constants: l.0, sections: filter_sections_of(l.0, l.1), rows: l.1, stems: l.2 }
}

/// The most constants that the paradigms can add to the catalogue.
pub open spec fn paradigms_budget(ps: Seq<LoadedParadigmView>) -> nat
    decreases ps.len(),
{
    if ps.len() == 0 {
        0
    } else {
        paradigms_budget(ps.drop_last()) + paradigm_budget(ps.last())
    }
}

/// The views of loaded paradigms.
pub open spec fn paradigm_views(ps: Seq<LoadedParadigm>) -> Seq<LoadedParadigmView> {
    ps.map_values(|p: LoadedParadigm| p@)
}

proof fn lemma_rows_budget_mono(t: crate::catalog::LoadedTableView, m1: nat, m2: nat)
    requires
        m1 <= m2 <= t.rows.len(),
    ensures
        rows_budget(t, m1) <= rows_budget(t, m2),
    decreases m2,
{
    if m1 < m2 {
        lemma_rows_budget_mono(t, m1, (m2 - 1) as nat);
    }
}

proof fn lemma_tables_budget_mono(p: LoadedParadigmView, k1: nat, k2: nat)
    requires
        k1 <= k2 <= p.tables.len(),
    ensures
        tables_budget(p, k1) <= tables_budget(p, k2),
    decreases k2,
{
    if k1 < k2 {
        lemma_tables_budget_mono(p, k1, (k2 - 1) as nat);
    }
}

/// The catalogue that loading the paradigms builds is well formed: the
/// constant at each position has the id one above the position, no two
/// constants share a category and a canonical label, and each sort order is
/// the one for its category and label.
pub proof fn law_loaded_constants(ps: Seq<LoadedParadigmView>)
    requires
        paradigms_budget(ps) < i64::MAX,
    ensures
        catalog_wf(database_of(ps).constants),
        database_of(ps).constants.len() <= paradigms_budget(ps),
    decreases ps.len(),
{
    if ps.len() > 0 {
        let prev = ps.drop_last();
        law_loaded_constants(prev);
        lemma_quiz_rows_wf(ps.last(), loaded(prev).0);
    }
}

proof fn lemma_paradigms_budget_prefix(ps: Seq<LoadedParadigmView>, k: int)
    requires
        0 <= k <= ps.len(),
    ensures
        paradigms_budget(ps.take(k)) <= paradigms_budget(ps),
    decreases ps.len() - k,
{
    if k < ps.len() {
        lemma_paradigms_budget_prefix(ps, k + 1);
        assert(ps.take(k + 1).drop_last() =~= ps.take(k));
    } else {
        assert(ps.take(k) =~= ps);
    }
}

/// Whether the paradigms fit: the constants they can add can be numbered.
fn constants_fit(paradigms: &[LoadedParadigm]) -> (r: bool)
    ensures
        r == (paradigms_budget(paradigm_views(paradigms@)) + 2 < i64::MAX),
{
    let ghost pv = paradigm_views(paradigms@);
    let limit: u128 = 0x7fff_ffff_ffff_fffc;
    let mut total: u128 = 0;
    let mut k: usize = 0;
    assert(pv.take(0) =~= Seq::<LoadedParadigmView>::empty());
    while k < paradigms.len()
        invariant
            pv == paradigm_views(paradigms@),
            k <= pv.len(),
            total <= limit,
            limit == 0x7fff_ffff_ffff_fffc,
            total == paradigms_budget(pv.take(k as int)),
        decreases pv.len() - k,
    {
        let p = &paradigms[k];
        let ghost pp = p@;
        assert(pv[k as int] == pp);
        let ghost base = total as nat;
        let mut j: usize = 0;
        while j < p.tables.len()
            invariant
                pv == paradigm_views(paradigms@),
                k < pv.len(),
                pp == p@,
                pp == pv[k as int],
                base == paradigms_budget(pv.take(k as int)),
                j <= pp.tables.len(),
                total <= limit,
                limit == 0x7fff_ffff_ffff_fffc,
                total == base + tables_budget(pp, j as nat),
            decreases pp.tables.len() - j,
        {
            let t = &p.tables[j];
            let ghost tv = t@;
            assert(pp.tables[j as int] == tv);
            let parts = split_heading(t.heading.as_str());
            assert(parts.deep_view().len() == parts@.len());
            let cb: u128 = 4 + parts.len() as u128;
            assert(cb == cell_budget(tv));
            let ghost mid = total as nat;
            let mut m: usize = 0;
            while m < t.rows.len()
                invariant
                    pv == paradigm_views(paradigms@),
                    k < pv.len(),
                    pp == pv[k as int],
                    base == paradigms_budget(pv.take(k as int)),
                    j < pp.tables.len(),
                    tv == pp.tables[j as int],
                    mid == base + tables_budget(pp, j as nat),
                    limit == 0x7fff_ffff_ffff_fffc,
                    tv == t@,
                    cb == cell_budget(tv),
                    cb >= 4,
                    m <= tv.rows.len(),
                    total <= limit,
                    total == mid + rows_budget(tv, m as nat),
                decreases tv.rows.len() - m,
            {
                let n = t.rows[m].cells.len() as u128;
                assert(tv.rows[m as int].cells.len() == n);
                let rem: u128 = limit - total;
                let q: u128 = rem / cb;
                if n > q {
                    proof {
                        assert(n * cb > rem) by (nonlinear_arith)
                            requires
                                n > q,
                                q == rem / cb,
                                cb > 0,
                        ;
                        lemma_rows_budget_mono(tv, (m + 1) as nat, tv.rows.len());
                        lemma_tables_budget_mono(pp, (j + 1) as nat, pp.tables.len());
                        lemma_paradigms_budget_prefix(pv, k + 1);
                        assert(pv.take(k + 1).drop_last() =~= pv.take(k as int));
                    }
                    return false;
                }
                proof {
                    assert(n * cb <= rem) by (nonlinear_arith)
                        requires
                            n <= q,
                            q == rem / cb,
                            cb > 0,
                    ;
                }
                total = total + n * cb;
                m = m + 1;
            }
            assert(total == base + tables_budget(pp, (j + 1) as nat));
            j = j + 1;
        }
        proof {
            assert(pv.take(k + 1).drop_last() =~= pv.take(k as int));
            assert(pv.take(k + 1).last() == pp);
        }
        k = k + 1;
    }
    assert(pv.take(k as int) =~= pv);
    true
}

/// The quiz data of the trainer.
#[derive(Debug)]
pub struct Database {
    pub constants: ConstantTable,
    pub filter_sections: Vec<FilterSection>,
    pub rows: Vec<QuizRow>,
    pub stem_views: Vec<(i64, StemView)>,
}

impl View for Database {
    type V = DatabaseView;

    open spec fn view(&self) -> DatabaseView {
        DatabaseView {
            constants: self.constants@,
            sections: section_views(self.filter_sections@),
            rows: row_views(self.rows@),
            stems: stem_entries(self.stem_views@),
        }
    }
}

impl Database {
    /// The database of the loaded paradigms: their quiz rows, the catalogue of
    /// the constants that describe them, the filter sections and each
    /// paradigm's displayed form. It is refused only when the paradigms could
    /// describe more constants than ids can number.
    pub fn from_paradigms(paradigms: &[LoadedParadigm]) -> (r: Result<Database, DatabaseError>)
        ensures
            match r {
                Ok(db) => paradigms_budget(paradigm_views(paradigms@)) + 2 < i64::MAX && db@ == database_of(
                    paradigm_views(paradigms@),
                ) && catalog_wf(db@.constants),
                Err(e) => !(paradigms_budget(paradigm_views(paradigms@)) + 2 < i64::MAX) && e
                    == DatabaseError::TooManyConstants,
            },
    {
        if !constants_fit(paradigms) {
            return Err(DatabaseError::TooManyConstants);
        }
        let ghost pv = paradigm_views(paradigms@);
        let mut catalog = ConstantCatalog::default();
        let mut rows: Vec<QuizRow> = Vec::new();
        let mut stem_views: Vec<(i64, StemView)> = Vec::new();
        let mut k: usize = 0;
        assert(pv.take(0) =~= Seq::<LoadedParadigmView>::empty());
        assert(row_views(rows@) =~= Seq::<QuizRowView>::empty());
        assert(stem_entries(stem_views@) =~= Seq::<(i64, StemModel)>::empty());
        while k < paradigms.len()
            invariant
                pv == paradigm_views(paradigms@),
                paradigms_budget(pv) + 2 < i64::MAX,
                k <= pv.len(),
                catalog.wf(),
                catalog@.len() <= paradigms_budget(pv.take(k as int)),
                (catalog@, row_views(rows@), stem_entries(stem_views@)) == loaded(pv.take(k as int)),
            decreases pv.len() - k,
        {
            let p = &paradigms[k];
            proof {
                assert(pv[k as int] == p@);
                assert(pv.take(k + 1).drop_last() =~= pv.take(k as int));
                assert(pv.take(k + 1).last() == p@);
                lemma_paradigms_budget_prefix(pv, k + 1);
            }
            let sv = build_stem_view(p);
            put_stem(&mut stem_views, p.id, sv);
            let mut new_rows = build_quiz_rows(p, &mut catalog);
            let ghost before = row_views(rows@);
            let ghost added = row_views(new_rows@);
            rows.append(&mut new_rows);
            assert(row_views(rows@) =~= before + added);
            k = k + 1;
        }
        assert(pv.take(k as int) =~= pv);
        let filter_sections = build_filter_sections(&catalog.constants, rows.as_slice());
        assert(rows@.map_values(|x: QuizRow| x@) == row_views(rows@));
        Ok(Database { constants: catalog.constants, filter_sections, rows, stem_views })
    }
}


// ---------------------------------------------------------------------------
// Queries
// ---------------------------------------------------------------------------

/// The rows that pass the filters, in order.
pub open spec fn rows_matching(
    rows: Seq<QuizRowView>,
    filters: FilterModel,
    excluded: Option<Seq<char>>,
    exclude_selected_lemma: bool,
) -> Seq<QuizRowView>
    decreases rows.len(),
{
    if rows.len() == 0 {
        Seq::empty()
    } else {
        let prev = rows_matching(rows.drop_last(), filters, excluded, exclude_selected_lemma);
        if row_matches(rows.last(), filters.selection, filters.lemma_ids, excluded, exclude_selected_lemma) {
            prev.push(rows.last())
        } else {
            prev
        }
    }
}

/// The lemmas of the rows, each with the lemma text of its first row, in the
/// order in which they first occur.
pub open spec fn lemma_entries(rows: Seq<QuizRowView>) -> Seq<(i64, Seq<char>)>
    decreases rows.len(),
{
    if rows.len() == 0 {
        Seq::empty()
    } else {
        let prev = lemma_entries(rows.drop_last());
        if prev.map_values(|e: (i64, Seq<char>)| e.0).contains(rows.last().lemma_id) {
            prev
        } else {
            prev.push((rows.last().lemma_id, rows.last().lemma))
        }
    }
}

/// Where `x` goes in a list of lemmas sorted by lowercase label: after every
/// entry whose lowercase label does not come after that of `x`.
pub open spec fn lemma_position(sorted: Seq<(i64, Seq<char>)>, x: (i64, Seq<char>)) -> nat
    decreases sorted.len(),
{
    if sorted.len() == 0 {
        0
    } else if !lex_le(unicode_lowercase(sorted[0].1), unicode_lowercase(x.1)) {
        0
    } else {
        1 + lemma_position(sorted.drop_first(), x)
    }
}

/// The lemmas sorted by lowercase label; lemmas whose lowercase labels are
/// equal keep their order.
pub open spec fn lemmas_sorted(s: Seq<(i64, Seq<char>)>) -> Seq<(i64, Seq<char>)>
    decreases s.len(),
{
    if s.len() == 0 {
        Seq::empty()
    } else {
        let sorted = lemmas_sorted(s.drop_last());
        sorted.insert(lemma_position(sorted, s.last()) as int, s.last())
    }
}

/// The lemmas offered in the lemma filter: those of the rows that pass the
/// other filters, sorted by lowercase label.
pub open spec fn lemma_options_of(db: DatabaseView, filters: FilterModel) -> Seq<(i64, Seq<char>)> {
    lemmas_sorted(lemma_entries(rows_matching(db.rows, filters, None, true)))
}

/// The constants of `key` that some row has which passes the filters other
/// than the selection of `key` itself.
pub open spec fn available_ids(rows: Seq<QuizRowView>, filters: FilterModel, key: Seq<char>) -> Set<i64> {
    Set::new(
        |id: i64|
            exists|j: int|
                0 <= j < rows.len() && #[trigger] row_matches(
                    rows[j],
                    filters.selection,
                    filters.lemma_ids,
                    Some(key),
                    false,
                ) && assoc_get(rows[j].constant_ids, key) == Some(id),
    )
}

/// Whether `v` is the first `limit` (or all) of the rows `m` taken in some
/// order: each of its rows is the row of `m` at the next place of that order.
pub open spec fn picked_from(m: Seq<QuizRowView>, limit: usize, v: Seq<QuizRowView>) -> bool {
    &&& v.len() == (if limit < m.len() { limit as nat } else { m.len() })
    &&& exists|p: Seq<usize>|
        is_order(p, m.len()) && forall|k: int| 0 <= k < v.len() ==> #[trigger] v[k] == m[p[k] as int]
}

/// Every row that passes the filters is one of the rows.
pub proof fn lemma_rows_matching_members(
    rows: Seq<QuizRowView>,
    filters: FilterModel,
    excluded: Option<Seq<char>>,
    exclude_selected_lemma: bool,
)
    ensures
        forall|k: int|
            0 <= k < rows_matching(rows, filters, excluded, exclude_selected_lemma).len() ==> rows.contains(
                #[trigger] rows_matching(rows, filters, excluded, exclude_selected_lemma)[k],
            ),
    decreases rows.len(),
{
    if rows.len() > 0 {
        lemma_rows_matching_members(rows.drop_last(), filters, excluded, exclude_selected_lemma);
        let prev = rows_matching(rows.drop_last(), filters, excluded, exclude_selected_lemma);
        let r = rows_matching(rows, filters, excluded, exclude_selected_lemma);
        assert forall|k: int| 0 <= k < r.len() implies rows.contains(#[trigger] r[k]) by {
            if k < prev.len() {
                assert(r[k] == prev[k]);
                let j = choose|j: int| 0 <= j < rows.drop_last().len() && rows.drop_last()[j] == prev[k];
                assert(rows[j] == prev[k]);
            } else {
                assert(r[k] == rows.last());
                assert(rows[rows.len() - 1] == rows.last());
            }
        }
    }
}

/// The views of lemma options.
pub open spec fn lemma_option_views(s: Seq<LemmaOption>) -> Seq<(i64, Seq<char>)> {
    s.map_values(|o: LemmaOption| o@)
}

proof fn lemma_lemma_position_bound(sorted: Seq<(i64, Seq<char>)>, x: (i64, Seq<char>))
    ensures
        lemma_position(sorted, x) <= sorted.len(),
    decreases sorted.len(),
{
    if sorted.len() > 0 {
        lemma_lemma_position_bound(sorted.drop_first(), x);
    }
}

fn has_lemma(v: &Vec<LemmaOption>, id: i64) -> (r: bool)
    ensures
        r == lemma_option_views(v@).map_values(|e: (i64, Seq<char>)| e.0).contains(id),
{
    let ghost ids = lemma_option_views(v@).map_values(|e: (i64, Seq<char>)| e.0);
    let mut i: usize = 0;
    while i < v.len()
        invariant
            ids == lemma_option_views(v@).map_values(|e: (i64, Seq<char>)| e.0),
            i <= v@.len(),
            forall|j: int| 0 <= j < i ==> ids[j] != id,
        decreases v@.len() - i,
    {
        if v[i].id == id {
            assert(ids[i as int] == id);
            return true;
        }
        i = i + 1;
    }
    proof {
        if ids.contains(id) {
            let k = choose|k: int| 0 <= k < ids.len() && ids[k] == id;
            assert(false);
        }
    }
    false
}

impl Database {
    /// The rows that pass the filters, in order.
    fn matching_rows(
        &self,
        filters: &FilterState,
        excluded_category: Option<&str>,
        exclude_selected_lemma: bool,
    ) -> (r: Vec<QuizRow>)
        ensures
            row_views(r@) == rows_matching(
                self@.rows,
                filters.model(),
                match excluded_category {
                    Some(e) => Some(e@),
                    None => None,
                },
                exclude_selected_lemma,
            ),
    {
        let ghost excluded = match excluded_category {
            Some(e) => Some(e@),
            None => None::<Seq<char>>,
        };
        let ghost rv = row_views(self.rows@);
        let mut out: Vec<QuizRow> = Vec::new();
        let mut i: usize = 0;
        assert(rv.take(0) =~= Seq::<QuizRowView>::empty());
        assert(row_views(out@) =~= Seq::<QuizRowView>::empty());
        while i < self.rows.len()
            invariant
                rv == row_views(self.rows@),
                i <= rv.len(),
                excluded == (match excluded_category {
                    Some(e) => Some(e@),
                    None => None::<Seq<char>>,
                }),
                row_views(out@) == rows_matching(rv.take(i as int), filters.model(), excluded, exclude_selected_lemma),
            decreases rv.len() - i,
        {
            let row = &self.rows[i];
            assert(rv.take(i + 1).drop_last() =~= rv.take(i as int));
            assert(rv.take(i + 1).last() == row@);
            if matches_filters(row, filters, excluded_category, exclude_selected_lemma) {
                let ghost before = row_views(out@);
                let x = row.duplicate();
                out.push(x);
                assert(row_views(out@) =~= before.push(x@));
            }
            i = i + 1;
        }
        assert(rv.take(i as int) =~= rv);
        out
    }

    /// The catalogue of constants.
    pub fn load_constants(&self) -> (r: Result<ConstantTable, DatabaseError>)
        ensures
            r matches Ok(t) && t@ == self@.constants,
    {
        Ok(self.constants.duplicate())
    }

    /// The filter sections.
    pub fn load_filter_sections(&self) -> (r: Result<Vec<FilterSection>, DatabaseError>)
        ensures
            r matches Ok(v) && section_views(v@) == self@.sections,
    {
        let mut out: Vec<FilterSection> = Vec::new();
        let mut i: usize = 0;
        while i < self.filter_sections.len()
            invariant
                i <= self.filter_sections@.len(),
                section_views(out@) == section_views(self.filter_sections@).take(i as int),
            decreases self.filter_sections@.len() - i,
        {
            let ghost before = section_views(out@);
            let x = self.filter_sections[i].duplicate();
            out.push(x);
            assert(section_views(out@) =~= before.push(x@));
            i = i + 1;
            assert(section_views(out@) =~= section_views(self.filter_sections@).take(i as int));
        }
        assert(section_views(self.filter_sections@).take(i as int) =~= section_views(self.filter_sections@));
        Ok(out)
    }

    /// The lemmas of the rows that pass the filters other than the lemma
    /// selection, each once with the lemma text of its first row, sorted by
    /// lowercase label.
    pub fn load_lemma_options(&self, filters: &FilterState) -> (r: Result<Vec<LemmaOption>, DatabaseError>)
        ensures
            r matches Ok(v) && lemma_option_views(v@) == lemma_options_of(self@, filters.model()),
    {
        let matched = self.matching_rows(filters, None, true);
        let ghost mv = row_views(matched@);
        let mut grouped: Vec<LemmaOption> = Vec::new();
        let mut i: usize = 0;
        assert(mv.take(0) =~= Seq::<QuizRowView>::empty());
        assert(lemma_option_views(grouped@) =~= Seq::<(i64, Seq<char>)>::empty());
        while i < matched.len()
            invariant
                mv == row_views(matched@),
                i <= mv.len(),
                lemma_option_views(grouped@) == lemma_entries(mv.take(i as int)),
            decreases mv.len() - i,
        {
            let row = &matched[i];
            assert(mv.take(i + 1).drop_last() =~= mv.take(i as int));
            assert(mv.take(i + 1).last() == row@);
            if !has_lemma(&grouped, row.lemma_id) {
                let ghost before = lemma_option_views(grouped@);
                let o = LemmaOption { id: row.lemma_id, label: row.lemma.clone() };
                grouped.push(o);
                assert(lemma_option_views(grouped@) =~= before.push(o@));
            }
            i = i + 1;
        }
        assert(mv.take(i as int) =~= mv);
        let ghost entries = lemma_option_views(grouped@);
        let mut sorted: Vec<LemmaOption> = Vec::new();
        let mut keys: Vec<Vec<char>> = Vec::new();
        let mut k: usize = 0;
        assert(entries.take(0) =~= Seq::<(i64, Seq<char>)>::empty());
        assert(lemma_option_views(sorted@) =~= Seq::<(i64, Seq<char>)>::empty());
        while k < grouped.len()
            invariant
                entries == lemma_option_views(grouped@),
                k <= entries.len(),
                keys@.len() == sorted@.len(),
                forall|j: int| 0 <= j < sorted@.len() ==> (#[trigger] keys@[j])@ == unicode_lowercase(sorted@[j].label@),
                lemma_option_views(sorted@) == lemmas_sorted(entries.take(k as int)),
            decreases entries.len() - k,
        {
            let x = &grouped[k];
            assert(entries.take(k + 1).drop_last() =~= entries.take(k as int));
            assert(entries.take(k + 1).last() == x@);
            let lx = to_lowercase(x.label.as_str());
            let kx = chars_of(lx.as_str());
            let ghost before = lemma_option_views(sorted@);
            let mut pos: usize = 0;
            assert(before.skip(0) =~= before);
            while pos < sorted.len() && lex_le_chars(keys[pos].as_slice(), kx.as_slice())
                invariant
                    keys@.len() == sorted@.len(),
                    pos <= sorted@.len(),
                    before == lemma_option_views(sorted@),
                    kx@ == unicode_lowercase(x.label@),
                    forall|j: int| 0 <= j < sorted@.len() ==> (#[trigger] keys@[j])@ == unicode_lowercase(sorted@[j].label@),
                    lemma_position(before, x@) == pos + lemma_position(before.skip(pos as int), x@),
                decreases sorted@.len() - pos,
            {
                assert(before.skip(pos as int).drop_first() =~= before.skip(pos + 1));
                assert(before.skip(pos as int)[0] == sorted@[pos as int]@);
                pos = pos + 1;
            }
            proof {
                if pos < sorted@.len() {
                    assert(before.skip(pos as int)[0] == sorted@[pos as int]@);
                }
            }
            let ghost old_sorted = sorted@;
            let ghost old_keys = keys@;
            sorted.insert(pos, LemmaOption { id: x.id, label: x.label.clone() });
            keys.insert(pos, kx);
            proof {
                assert(lemma_option_views(sorted@) =~= before.insert(pos as int, x@));
                assert forall|j: int| 0 <= j < sorted@.len() implies (#[trigger] keys@[j])@ == unicode_lowercase(sorted@[j].label@) by {
                    if j < pos {
                        assert(sorted@[j] == old_sorted[j] && keys@[j] == old_keys[j]);
                    } else if j > pos {
                        assert(sorted@[j] == old_sorted[j - 1] && keys@[j] == old_keys[j - 1]);
                    }
                }
            }
            k = k + 1;
        }
        assert(entries.take(k as int) =~= entries);
        Ok(sorted)
    }

    /// For each section, the constants of its category that a row has which
    /// passes the filters other than that category's own selection.
    pub fn load_filter_availability(&self, filters: &FilterState, sections: &[FilterSection]) -> (r: Result<
        Vec<(String, BTreeSet<i64>)>,
        DatabaseError,
    >)
        ensures
            r matches Ok(v) && v@.len() == sections@.len() && forall|i: int|
                0 <= i < sections@.len() ==> (#[trigger] v@[i]).0@ == sections@[i].key@ && v@[i].1@
                    == available_ids(self@.rows, filters.model(), sections@[i].key@),
    {
        let ghost rv = row_views(self.rows@);
        let mut out: Vec<(String, BTreeSet<i64>)> = Vec::new();
        let mut s: usize = 0;
        while s < sections.len()
            invariant
                rv == row_views(self.rows@),
                s <= sections@.len(),
                out@.len() == s,
                forall|i: int|
                    0 <= i < s ==> (#[trigger] out@[i]).0@ == sections@[i].key@ && out@[i].1@ == available_ids(
                        rv,
                        filters.model(),
                        sections@[i].key@,
                    ),
            decreases sections@.len() - s,
        {
            let key = &sections[s].key;
            let mut ids: BTreeSet<i64> = BTreeSet::new();
            let mut j: usize = 0;
            while j < self.rows.len()
                invariant
                    rv == row_views(self.rows@),
                    j <= rv.len(),
                    ids@ == Set::new(
                        |id: i64|
                            exists|m: int|
                                0 <= m < j && #[trigger] row_matches(
                                    rv[m],
                                    filters.selection(),
                                    filters.lemma_ids(),
                                    Some(key@),
                                    false,
                                ) && assoc_get(rv[m].constant_ids, key@) == Some(id),
                    ),
                decreases rv.len() - j,
            {
                let row = &self.rows[j];
                assert(rv[j as int] == row@);
                let ghost prev = ids@;
                if matches_filters(row, filters, Some(key.as_str()), false) {
                    match row.constant_ids.get(key.as_str()) {
                        Some(v) => {
                            ids.insert(v);
                        },
                        None => {},
                    }
                }
                proof {
                    let next = Set::new(
                        |id: i64|
                            exists|m: int|
                                0 <= m < j + 1 && #[trigger] row_matches(
                                    rv[m],
                                    filters.selection(),
                                    filters.lemma_ids(),
                                    Some(key@),
                                    false,
                                ) && assoc_get(rv[m].constant_ids, key@) == Some(id),
                    );
                    assert forall|id: i64| ids@.contains(id) <==> next.contains(id) by {
                        if prev.contains(id) {
                            let m = choose|m: int|
                                0 <= m < j && #[trigger] row_matches(
                                    rv[m],
                                    filters.selection(),
                                    filters.lemma_ids(),
                                    Some(key@),
                                    false,
                                ) && assoc_get(rv[m].constant_ids, key@) == Some(id);
                            assert(0 <= m < j + 1);
                        }
                        if next.contains(id) {
                            let m = choose|m: int|
                                0 <= m < j + 1 && #[trigger] row_matches(
                                    rv[m],
                                    filters.selection(),
                                    filters.lemma_ids(),
                                    Some(key@),
                                    false,
                                ) && assoc_get(rv[m].constant_ids, key@) == Some(id);
                            if m < j {
                                assert(prev.contains(id));
                            }
                        }
                    }
                    assert(ids@ =~= next);
                }
                j = j + 1;
            }
            assert(ids@ =~= available_ids(rv, filters.model(), key@));
            out.push((key.clone(), ids));
            s = s + 1;
        }
        Ok(out)
    }

    /// At most `limit` of the rows that pass the filters, picked in an order
    /// chosen at random: the first of a random ordering of those rows.
    pub fn load_candidate_rows(&self, filters: &FilterState, limit: usize) -> (r: Result<Vec<QuizRow>, DatabaseError>)
        ensures
            r matches Ok(v) && picked_from(rows_matching(self@.rows, filters.model(), None, false), limit, row_views(v@)),
    {
        let matched = self.matching_rows(filters, None, false);
        let ghost m = row_views(matched@);
        let n = matched.len();
        let order = random_order(n);
        let count = if limit < n { limit } else { n };
        let mut out: Vec<QuizRow> = Vec::new();
        let mut k: usize = 0;
        while k < count
            invariant
                m == row_views(matched@),
                n == m.len(),
                is_order(order@, n as nat),
                count <= n,
                k <= count,
                out@.len() == k,
                forall|j: int| 0 <= j < k ==> (#[trigger] out@[j])@ == m[order@[j] as int],
            decreases count - k,
        {
            assert(order@[k as int] < n);
            let x = matched[order[k]].duplicate();
            out.push(x);
            k = k + 1;
        }
        assert(is_order(order@, n as nat) && forall|j: int| 0 <= j < out@.len() ==> (#[trigger] row_views(out@)[j]) == m[order@[j] as int]);
        Ok(out)
    }

    /// The displayed form of the lemma with the given id, if there is one.
    pub fn load_stem_view(&self, lemma_id: i64) -> (r: Result<Option<StemView>, DatabaseError>)
        ensures
            r matches Ok(o) && match o {
                Some(v) => id_get(self@.stems, lemma_id) == Some(stem_view_view(v)),
                None => id_get(self@.stems, lemma_id) is None,
            },
    {
        let ghost s = self@.stems;
        let mut i: usize = 0;
        assert(s.skip(0) =~= s);
        while i < self.stem_views.len()
            invariant
                s == self@.stems,
                s.len() == self.stem_views@.len(),
                i <= s.len(),
                id_get(s, lemma_id) == id_get(s.skip(i as int), lemma_id),
            decreases s.len() - i,
        {
            assert(s.skip(i as int)[0] == s[i as int]);
            if self.stem_views[i].0 == lemma_id {
                return Ok(Some(self.stem_views[i].1.duplicate()));
            }
            assert(s.skip(i as int).drop_first() =~= s.skip(i + 1));
            i = i + 1;
        }
        Ok(None)
    }
}


// ---------------------------------------------------------------------------
// Laws
// ---------------------------------------------------------------------------

/// Whether the lemmas are in order of their lowercase labels.
pub open spec fn sorted_by_label(s: Seq<(i64, Seq<char>)>) -> bool {
    forall|i: int, j: int|
        0 <= i < j < s.len() ==> lex_le(unicode_lowercase(#[trigger] s[i].1), unicode_lowercase(#[trigger] s[j].1))
}

proof fn lemma_lemma_position(sorted: Seq<(i64, Seq<char>)>, x: (i64, Seq<char>))
    requires
        sorted_by_label(sorted),
    ensures
        lemma_position(sorted, x) <= sorted.len(),
        forall|i: int|
            0 <= i < lemma_position(sorted, x) ==> lex_le(unicode_lowercase(#[trigger] sorted[i].1), unicode_lowercase(x.1)),
        forall|i: int|
            lemma_position(sorted, x) <= i < sorted.len() ==> lex_le(unicode_lowercase(x.1), unicode_lowercase(#[trigger] sorted[i].1)),
    decreases sorted.len(),
{
    if sorted.len() > 0 {
        let t = sorted.drop_first();
        assert forall|i: int, j: int| 0 <= i < j < t.len() implies lex_le(unicode_lowercase(#[trigger] t[i].1), unicode_lowercase(#[trigger] t[j].1)) by {
            assert(t[i] == sorted[i + 1] && t[j] == sorted[j + 1]);
        }
        lemma_lemma_position(t, x);
        if lex_le(unicode_lowercase(sorted[0].1), unicode_lowercase(x.1)) {
            assert forall|i: int| 0 <= i < lemma_position(sorted, x) implies lex_le(unicode_lowercase(#[trigger] sorted[i].1), unicode_lowercase(x.1)) by {
                if i > 0 {
                    assert(sorted[i] == t[i - 1]);
                }
            }
            assert forall|i: int| lemma_position(sorted, x) <= i < sorted.len() implies lex_le(unicode_lowercase(x.1), unicode_lowercase(#[trigger] sorted[i].1)) by {
                assert(sorted[i] == t[i - 1]);
            }
        } else {
            crate::filters::lemma_lex_total(unicode_lowercase(sorted[0].1), unicode_lowercase(x.1));
            assert forall|i: int| 0 <= i < sorted.len() implies lex_le(unicode_lowercase(x.1), unicode_lowercase(#[trigger] sorted[i].1)) by {
                if i > 0 {
                    assert(lex_le(unicode_lowercase(sorted[0].1), unicode_lowercase(sorted[i].1)));
                    crate::filters::lemma_lex_transitive(unicode_lowercase(x.1), unicode_lowercase(sorted[0].1), unicode_lowercase(sorted[i].1));
                }
            }
        }
    }
}

/// The lemmas of the lemma filter are in order of their lowercase labels and
/// are those of the rows, each lemma once.
pub proof fn law_lemmas_sorted(s: Seq<(i64, Seq<char>)>)
    ensures
        sorted_by_label(lemmas_sorted(s)),
        lemmas_sorted(s).to_multiset() == s.to_multiset(),
    decreases s.len(),
{
    broadcast use vstd::seq_lib::to_multiset_insert, vstd::seq_lib::to_multiset_build;

    if s.len() > 0 {
        law_lemmas_sorted(s.drop_last());
        let sorted = lemmas_sorted(s.drop_last());
        let x = s.last();
        lemma_lemma_position(sorted, x);
        let p = lemma_position(sorted, x) as int;
        let r = sorted.insert(p, x);
        assert forall|i: int, j: int| 0 <= i < j < r.len() implies lex_le(unicode_lowercase(#[trigger] r[i].1), unicode_lowercase(#[trigger] r[j].1)) by {
            if j < p {
                assert(r[i] == sorted[i] && r[j] == sorted[j]);
            } else if j == p {
                assert(r[i] == sorted[i]);
            } else if i < p {
                assert(r[i] == sorted[i] && r[j] == sorted[j - 1]);
                crate::filters::lemma_lex_transitive(unicode_lowercase(sorted[i].1), unicode_lowercase(x.1), unicode_lowercase(sorted[j - 1].1));
            } else if i == p {
                assert(r[j] == sorted[j - 1]);
            } else {
                assert(r[i] == sorted[i - 1] && r[j] == sorted[j - 1]);
            }
        }
        assert(s.drop_last().push(x) =~= s);
        vstd::seq_lib::to_multiset_insert(sorted, p, x);
        vstd::seq_lib::to_multiset_build(s.drop_last(), x);
    } else {
        assert(s =~= Seq::<(i64, Seq<char>)>::empty());
    }
}

/// Each lemma occurs once among the lemmas of the rows.
pub proof fn law_lemma_entries_distinct(rows: Seq<QuizRowView>)
    ensures
        lemma_entries(rows).map_values(|e: (i64, Seq<char>)| e.0).no_duplicates(),
    decreases rows.len(),
{
    if rows.len() > 0 {
        law_lemma_entries_distinct(rows.drop_last());
        let prev = lemma_entries(rows.drop_last());
        let ids = prev.map_values(|e: (i64, Seq<char>)| e.0);
        let id = rows.last().lemma_id;
        if !ids.contains(id) {
            let r = prev.push((id, rows.last().lemma));
            let rids = r.map_values(|e: (i64, Seq<char>)| e.0);
            assert(rids =~= ids.push(id));
            assert forall|i: int, j: int| 0 <= i < rids.len() && 0 <= j < rids.len() && i != j implies rids[i] != rids[j] by {
                if i < ids.len() && j < ids.len() {
                } else if i < ids.len() {
                    assert(ids[i] != id);
                } else if j < ids.len() {
                    assert(ids[j] != id);
                }
            }
        }
    }
}

/// Binding a displayed paradigm to a lemma id makes it the one found for that
/// id, and leaves the others as they were.
pub proof fn law_stem_lookup(s: Seq<(i64, StemModel)>, id: i64, v: StemModel, other: i64)
    ensures
        id_get(id_put(s, id, v), id) == Some(v),
        other != id ==> id_get(id_put(s, id, v), other) == id_get(s, other),
{
    lemma_id_put(s, id, v, other);
}

} // verus!
