//! A quiz session: the database, the user's filters and what they leave
//! available, the pool of candidate rows, the current question, the
//! statistics and the saved filter presets, with the decision that each user
//! action makes. Reading and writing the statistics and presets is left to
//! the caller, which each action tells when they changed.
use std::collections::BTreeSet;
use vstd::prelude::*;
use vstd::std_specs::iter::IteratorSpec;

use crate::db::{
    available_ids, id_get, lemma_option_views, lemma_options_of, lemma_rows_matching_members, picked_from, rows_matching,
    Database, DatabaseView, StemModel,
};
use crate::models::{
    row_views, section_views, selection_views, stem_view_view, ConstantTable, FilterModel, FilterSection,
    FilterSectionView, FilterState, LemmaOption, Question, QuestionView, QuizMode, QuizRow, QuizRowView,
    SessionStats, StemView,
};
use crate::quiz::{generate_question, is_order, opt_question, question_for};
use crate::text::str_eq;

verus! {

broadcast use vstd::std_specs::btree::group_btree_axioms, vstd::laws_cmp::group_laws_cmp;

// ---------------------------------------------------------------------------
// Keeping the filters to what is available
// ---------------------------------------------------------------------------

/// The constants of each section's category that some row offers under the
/// other filters.
pub open spec fn availability_of(rows: Seq<QuizRowView>, f: FilterModel, sections: Seq<FilterSectionView>) -> Seq<
    (Seq<char>, Set<i64>),
> {
    sections.map_values(|s: FilterSectionView| (s.key, available_ids(rows, f, s.key)))
}

/// The categories of the sections.
pub open spec fn section_keys(sections: Seq<FilterSectionView>) -> Seq<Seq<char>> {
    sections.map_values(|s: FilterSectionView| s.key)
}

/// A category's selection kept to the constants that are available, when
/// the category has a section.
pub open spec fn narrowed(
    e: (Seq<char>, Set<i64>),
    rows: Seq<QuizRowView>,
    f: FilterModel,
    keys: Seq<Seq<char>>,
) -> (Seq<char>, Set<i64>) {
    if keys.contains(e.0) {
        (e.0, e.1.intersect(available_ids(rows, f, e.0)))
    } else {
        e
    }
}

/// The entries whose selection is not empty.
pub open spec fn non_empty_entries(s: Seq<(Seq<char>, Set<i64>)>) -> Seq<(Seq<char>, Set<i64>)>
    decreases s.len(),
{
    if s.len() == 0 {
        Seq::empty()
    } else if s.last().1.is_empty() {
        non_empty_entries(s.drop_last())
    } else {
        non_empty_entries(s.drop_last()).push(s.last())
    }
}

/// The selection kept to the available constants, without empty entries.
pub open spec fn narrowed_selection(rows: Seq<QuizRowView>, f: FilterModel, keys: Seq<Seq<char>>) -> Seq<
    (Seq<char>, Set<i64>),
> {
    non_empty_entries(f.selection.map_values(|e: (Seq<char>, Set<i64>)| narrowed(e, rows, f, keys)))
}

/// Whether some selected constant of a sectioned category is not available.
pub open spec fn selection_narrows(rows: Seq<QuizRowView>, f: FilterModel, keys: Seq<Seq<char>>) -> bool {
    exists|i: int, x: i64|
        0 <= i < f.selection.len() && keys.contains(f.selection[i].0) && #[trigger] f.selection[i].1.contains(x)
            && !available_ids(rows, f, f.selection[i].0).contains(x)
}

/// The ids of the lemma options.
pub open spec fn option_ids(options: Seq<(i64, Seq<char>)>) -> Set<i64> {
    options.map_values(|o: (i64, Seq<char>)| o.0).to_set()
}

/// One round of keeping the filters to what is available: the narrowed
/// filters, and whether anything was dropped.
pub open spec fn sync_round(db: DatabaseView, f: FilterModel, sections: Seq<FilterSectionView>) -> (FilterModel, bool) {
    let ids = option_ids(lemma_options_of(db, f));
    let keys = section_keys(sections);
    let lemmas_drop = exists|id: i64| f.lemma_ids.contains(id) && !ids.contains(id);
    (
        FilterModel { selection: narrowed_selection(db.rows, f, keys), lemma_ids: f.lemma_ids.intersect(ids) },
        selection_narrows(db.rows, f, keys) || lemmas_drop,
    )
}

/// The filters after at most `n` rounds, stopping after a round that drops
/// nothing; with the filters that the availability is then shown for.
pub open spec fn synced(db: DatabaseView, sections: Seq<FilterSectionView>, f: FilterModel, n: nat) -> (
    FilterModel,
    FilterModel,
)
    decreases n,
{
    if n == 0 {
        (f, f)
    } else {
        let (g, changed) = sync_round(db, f, sections);
        if !changed {
            (g, f)
        } else {
            synced(db, sections, g, (n - 1) as nat)
        }
    }
}

fn intersect_with(s: &BTreeSet<i64>, allowed: &BTreeSet<i64>) -> (r: (BTreeSet<i64>, bool))
    ensures
        r.0@ == s@.intersect(allowed@),
        r.1 == exists|x: i64| s@.contains(x) && !allowed@.contains(x),
{
    let mut out: BTreeSet<i64> = BTreeSet::new();
    let mut dropped = false;
    let ghost items = s.iter().remaining().unref();
    proof {
        vstd::std_specs::btree::axiom_spec_btree_keys_iter(s);
    }
    let ghost mut k: int = 0;
    for x in it: s.iter()
        invariant
            items == s.iter().remaining().unref(),
            items.to_set() == s@,
            it.seq().unref() == items,
            k == it.index(),
            out@ == items.take(k).to_set().intersect(allowed@),
            dropped == exists|y: i64| items.take(k).to_set().contains(y) && !allowed@.contains(y),
    {
        assert(*x == it.seq()[it.index() as int]);
        let ghost t = items.take(k);
        assert(items.take(k + 1) =~= t.push(*x));
        proof {
            t.lemma_push_to_set_commute(*x);
        }
        let ghost before = out@;
        let ghost dropped_before = dropped;
        if allowed.contains(x) {
            out.insert(*x);
            assert(out@ =~= t.push(*x).to_set().intersect(allowed@));
        } else {
            assert(before =~= t.push(*x).to_set().intersect(allowed@));
            dropped = true;
            assert(t.push(*x).to_set().contains(*x));
        }
        proof {
            if dropped_before {
                let y = choose|y: i64| t.to_set().contains(y) && !allowed@.contains(y);
                assert(t.push(*x).to_set().contains(y));
            }
            if !dropped {
                assert forall|y: i64| t.push(*x).to_set().contains(y) implies allowed@.contains(y) by {
                    if y != *x {
                        assert(t.to_set().contains(y));
                    }
                }
            }
            k = k + 1;
        }
    }
    assert(k == items.len());
    assert(items.take(k) =~= items);
    (out, dropped)
}


fn unwrap_availability(r: Result<Vec<(String, BTreeSet<i64>)>, crate::db::DatabaseError>) -> (v: Vec<(String, BTreeSet<i64>)>)
    requires
        r is Ok,
    ensures
        r == Ok::<Vec<(String, BTreeSet<i64>)>, crate::db::DatabaseError>(v),
{
    match r {
        Ok(v) => v,
        Err(_) => Vec::new(),
    }
}

fn unwrap_options(r: Result<Vec<LemmaOption>, crate::db::DatabaseError>) -> (v: Vec<LemmaOption>)
    requires
        r is Ok,
    ensures
        r == Ok::<Vec<LemmaOption>, crate::db::DatabaseError>(v),
{
    match r {
        Ok(v) => v,
        Err(_) => Vec::new(),
    }
}

/// The current availability of each section's constants.
fn availability(db: &Database, filters: &FilterState, sections: &Vec<FilterSection>) -> (r: Vec<(String, BTreeSet<i64>)>)
    ensures
        selection_views(r@) == availability_of(db@.rows, filters.model(), section_views(sections@)),
{
    let v = unwrap_availability(db.load_filter_availability(filters, sections.as_slice()));
    assert(selection_views(v@) =~= availability_of(db@.rows, filters.model(), section_views(sections@)));
    v
}

fn option_id_set(options: &Vec<LemmaOption>) -> (r: BTreeSet<i64>)
    ensures
        r@ == option_ids(lemma_option_views(options@)),
{
    let ghost ov = lemma_option_views(options@);
    let mut ids: BTreeSet<i64> = BTreeSet::new();
    let mut i: usize = 0;
    while i < options.len()
        invariant
            ov == lemma_option_views(options@),
            i <= ov.len(),
            ids@ == option_ids(ov.take(i as int)),
        decreases ov.len() - i,
    {
        let ghost t = ov.take(i as int);
        assert(ov.take(i + 1) =~= t.push(ov[i as int]));
        assert(ov.take(i + 1).map_values(|o: (i64, Seq<char>)| o.0) =~= t.map_values(|o: (i64, Seq<char>)| o.0).push(options@[i as int].id));
        proof {
            t.map_values(|o: (i64, Seq<char>)| o.0).lemma_push_to_set_commute(options@[i as int].id);
        }
        ids.insert(options[i].id);
        i = i + 1;
    }
    assert(ov.take(i as int) =~= ov);
    ids
}

fn section_index(sections: &Vec<FilterSection>, key: &str) -> (r: Option<usize>)
    ensures
        match r {
            Some(k) => k < sections@.len() && sections@[k as int].key@ == key@,
            None => !section_keys(section_views(sections@)).contains(key@),
        },
{
    let mut k: usize = 0;
    while k < sections.len()
        invariant
            k <= sections@.len(),
            forall|j: int| 0 <= j < k ==> sections@[j].key@ != key@,
        decreases sections@.len() - k,
    {
        if str_eq(sections[k].key.as_str(), key) {
            return Some(k);
        }
        k = k + 1;
    }
    proof {
        let keys = section_keys(section_views(sections@));
        if keys.contains(key@) {
            let j = choose|j: int| 0 <= j < keys.len() && keys[j] == key@;
            assert(keys[j] == sections@[j].key@);
        }
    }
    None
}

/// One round of keeping the filters to what is available, with the
/// availability and lemma options that the round found.
fn sync_round_exec(db: &Database, filters: &FilterState, sections: &Vec<FilterSection>) -> (r: (
    FilterState,
    bool,
    Vec<(String, BTreeSet<i64>)>,
    Vec<LemmaOption>,
))
    ensures
        (r.0.model(), r.1) == sync_round(db@, filters.model(), section_views(sections@)),
        selection_views(r.2@) == availability_of(db@.rows, filters.model(), section_views(sections@)),
        lemma_option_views(r.3@) == lemma_options_of(db@, filters.model()),
{
    let ghost f = filters.model();
    let ghost sv = section_views(sections@);
    let ghost keys = section_keys(sv);
    let avail = availability(db, filters, sections);
    let options = unwrap_options(db.load_lemma_options(filters));
    let ids = option_id_set(&options);
    let ghost sel = f.selection;
    let ghost mapped = sel.map_values(|e: (Seq<char>, Set<i64>)| narrowed(e, db@.rows, f, keys));
    let mut kept: Vec<(String, BTreeSet<i64>)> = Vec::new();
    let mut changed = false;
    let mut j: usize = 0;
    let entries = filters.selected_constants();
    assert(selection_views(kept@) =~= non_empty_entries(mapped.take(0)));
    while j < entries.len()
        invariant
            f == filters.model(),
            selection_views(entries@) == sel,
            sel == f.selection,
            sv == section_views(sections@),
            keys == section_keys(sv),
            mapped == sel.map_values(|e: (Seq<char>, Set<i64>)| narrowed(e, db@.rows, f, keys)),
            selection_views(avail@) == availability_of(db@.rows, f, sv),
            j <= sel.len(),
            selection_views(kept@) == non_empty_entries(mapped.take(j as int)),
            changed == exists|i: int, x: i64|
                0 <= i < j && keys.contains(sel[i].0) && #[trigger] sel[i].1.contains(x) && !available_ids(
                    db@.rows,
                    f,
                    sel[i].0,
                ).contains(x),
        decreases sel.len() - j,
    {
        let key = &entries[j].0;
        let set = &entries[j].1;
        assert(sel[j as int] == (key@, set@));
        assert(mapped.take(j + 1).drop_last() =~= mapped.take(j as int));
        assert(mapped.take(j + 1).last() == mapped[j as int]);
        let ghost changed_before = changed;
        let narrowed_set: BTreeSet<i64> = match section_index(sections, key.as_str()) {
            Some(k) => {
                assert(keys[k as int] == key@);
                assert(keys.contains(key@));
                assert(selection_views(avail@).len() == avail@.len());
                assert(availability_of(db@.rows, f, sv).len() == sections@.len());
                assert(k < avail@.len());
                assert(avail@[k as int].1@ == available_ids(db@.rows, f, key@)) by {
                    assert(selection_views(avail@).len() == sv.len());
                    assert(selection_views(avail@)[k as int] == availability_of(db@.rows, f, sv)[k as int]);
                    assert(sv[k as int].key == key@);
                }
                let (n, dropped) = intersect_with(set, &avail[k].1);
                if dropped {
                    changed = true;
                }
                proof {
                    if dropped {
                        let x = choose|x: i64| set@.contains(x) && !avail@[k as int].1@.contains(x);
                        assert(sel[j as int].1.contains(x));
                    }
                    if changed_before {
                        let (i, x) = choose|i: int, x: i64|
                            0 <= i < j && keys.contains(sel[i].0) && #[trigger] sel[i].1.contains(x) && !available_ids(
                                db@.rows,
                                f,
                                sel[i].0,
                            ).contains(x);
                        assert(0 <= i < j + 1 && keys.contains(sel[i].0) && sel[i].1.contains(x));
                    }
                    if !changed {
                        assert forall|i: int, x: i64|
                            0 <= i < j + 1 && keys.contains(sel[i].0) && #[trigger] sel[i].1.contains(x) implies available_ids(
                            db@.rows,
                            f,
                            sel[i].0,
                        ).contains(x) by {
                            if i == j {
                                assert(set@.contains(x));
                            }
                        }
                    }
                }
                n
            },
            None => {
                proof {
                    if !changed {
                        assert forall|i: int, x: i64|
                            0 <= i < j + 1 && keys.contains(sel[i].0) && #[trigger] sel[i].1.contains(x) implies available_ids(
                            db@.rows,
                            f,
                            sel[i].0,
                        ).contains(x) by {
                            if i == j {
                                assert(!keys.contains(sel[i].0));
                            }
                        }
                    } else {
                        let (i, x) = choose|i: int, x: i64|
                            0 <= i < j && keys.contains(sel[i].0) && #[trigger] sel[i].1.contains(x) && !available_ids(
                                db@.rows,
                                f,
                                sel[i].0,
                            ).contains(x);
                        assert(0 <= i < j + 1 && keys.contains(sel[i].0) && sel[i].1.contains(x));
                    }
                }
                set.clone()
            },
        };
        assert(mapped[j as int] == (key@, narrowed_set@));
        if !narrowed_set.is_empty() {
            let ghost before = selection_views(kept@);
            kept.push((key.clone(), narrowed_set));
            assert(selection_views(kept@) =~= before.push(mapped[j as int]));
        }
        j = j + 1;
    }
    assert(mapped.take(j as int) =~= mapped);
    let (lemma_ids, lemmas_dropped) = intersect_with(filters.selected_lemma_ids(), &ids);
    proof {
        lemma_sync_round_wf(db@, f, sv);
    }
    let next = match FilterState::from_entries(kept, lemma_ids) {
        Some(next) => next,
        None => FilterState::new(),
    };
    assert(next.model() == sync_round(db@, f, sv).0);
    (next, changed || lemmas_dropped, avail, options)
}


// ---------------------------------------------------------------------------
// The session
// ---------------------------------------------------------------------------

/// The screens of the trainer.
#[derive(Clone, Copy, Debug, PartialEq, Eq, Structural)]
pub enum Screen {
    Quiz,
    Stems,
}

/// The state of a quiz session.
#[derive(Debug)]
pub struct Session {
    pub db: Database,
    pub constants: ConstantTable,
    pub filter_sections: Vec<FilterSection>,
    pub filters: FilterState,
    pub availability: Vec<(String, BTreeSet<i64>)>,
    pub lemma_options: Vec<LemmaOption>,
    pub pool: Vec<QuizRow>,
    pub current_question: Option<Question>,
    pub mode: QuizMode,
    pub screen: Screen,
    pub filter_drawer_open: bool,
    pub stem_view: Option<StemView>,
    pub stats: SessionStats,
    pub lemma_search_query: String,
    pub preset_name_input: String,
    pub presets: Vec<(String, FilterState)>,
}

/// How many candidate rows a session draws its questions from.
pub const POOL_SIZE: usize = 320;

/// Whether every row's form is short enough to compare with another.
pub open spec fn forms_fit(rows: Seq<QuizRowView>) -> bool {
    forall|i: int| 0 <= i < rows.len() ==> (#[trigger] rows[i]).form.len() < usize::MAX
}

/// The view of an optional displayed paradigm.
pub open spec fn stem_opt(o: Option<StemView>) -> Option<StemModel> {
    match o {
        Some(v) => Some(stem_view_view(v)),
        None => None,
    }
}

/// The smallest id of a set.
pub open spec fn least(s: Set<i64>) -> i64 {
    choose|x: i64| s.contains(x) && forall|y: i64| s.contains(y) ==> x <= y
}

/// The lemma whose paradigm is shown: the first selected lemma, else the
/// lemma of the current question, else the first lemma offered.
pub open spec fn active_lemma(lemmas: Set<i64>, question: Option<QuestionView>, options: Seq<(i64, Seq<char>)>) -> Option<i64> {
    if !lemmas.is_empty() {
        Some(least(lemmas))
    } else if question is Some {
        Some(question.unwrap().lemma_id)
    } else if options.len() > 0 {
        Some(options[0].0)
    } else {
        None
    }
}

/// The paradigm shown for the active lemma.
pub open spec fn shown_stem(db: DatabaseView, active: Option<i64>) -> Option<StemModel> {
    match active {
        Some(id) => id_get(db.stems, id),
        None => None,
    }
}

impl Session {
    /// The paradigm shown is that of the active lemma.
    pub open spec fn stem_shown(&self) -> bool {
        stem_opt(self.stem_view) == shown_stem(
            self.db@,
            active_lemma(
                self.filters.lemma_ids(),
                opt_question(self.current_question),
                lemma_option_views(self.lemma_options@),
            ),
        )
    }

    /// The filters are kept to what is available, starting from `start`,
    /// and the availability and lemma options are those found for them.
    pub open spec fn synced_from(&self, start: FilterModel) -> bool {
        let s = synced(self.db@, section_views(self.filter_sections@), start, 4);
        &&& self.filters.model() == s.0
        &&& selection_views(self.availability@) == availability_of(self.db@.rows, s.1, section_views(self.filter_sections@))
        &&& lemma_option_views(self.lemma_options@) == lemma_options_of(self.db@, s.1)
    }

    /// The pool is drawn from the rows that pass the filters, and the current
    /// question is one that the pool gives.
    pub open spec fn pool_drawn(&self) -> bool {
        &&& picked_from(rows_matching(self.db@.rows, self.filters.model(), None, false), POOL_SIZE, row_views(self.pool@))
        &&& question_for(self.mode, row_views(self.pool@), self.constants@, opt_question(self.current_question))
    }

    /// The parts that a reload leaves as they are (the mode aside).
    pub open spec fn same_setting(&self, other: &Session) -> bool {
        &&& self.db == other.db
        &&& self.constants == other.constants
        &&& self.filter_sections == other.filter_sections
        &&& self.screen == other.screen
        &&& self.filter_drawer_open == other.filter_drawer_open
        &&& self.stats == other.stats
        &&& self.lemma_search_query == other.lemma_search_query
        &&& self.preset_name_input == other.preset_name_input
        &&& self.presets == other.presets
    }

    /// Whether this state is what reloading `before` gives, with the filters
    /// `start`: the filters kept to what is available, a new pool and
    /// question, the paradigm shown for the active lemma, the rest as it was.
    pub open spec fn reloaded(&self, before: &Session, start: FilterModel) -> bool {
        &&& self.same_setting(before)
        &&& self.mode == before.mode
        &&& self.synced_from(start)
        &&& self.pool_drawn()
        &&& self.stem_shown()
    }

    /// The rows of the database and the pool can be compared form by form.
    pub open spec fn wf(&self) -> bool {
        &&& forms_fit(row_views(self.db.rows@))
        &&& forms_fit(row_views(self.pool@))
    }

    fn sync_filter_state(&mut self)
        ensures
            final(self).synced_from(old(self).filters.model()),
            final(self).same_setting(old(self)),
            final(self).mode == old(self).mode,
            final(self).pool == old(self).pool,
            final(self).current_question == old(self).current_question,
            final(self).stem_view == old(self).stem_view,
    {
        let ghost start = self.filters.model();
        let ghost sv = section_views(self.filter_sections@);
        let mut round: usize = 0;
        while round < 4
            invariant
                round <= 4,
                start == old(self).filters.model(),
                sv == section_views(self.filter_sections@),
                synced(self.db@, sv, start, 4) == synced(self.db@, sv, self.filters.model(), (4 - round) as nat),
                self.same_setting(old(self)),
                self.mode == old(self).mode,
                self.pool == old(self).pool,
                self.current_question == old(self).current_question,
                self.stem_view == old(self).stem_view,
            decreases 4 - round,
        {
            let ghost here = self.filters.model();
            let (next, changed, avail, options) = sync_round_exec(&self.db, &self.filters, &self.filter_sections);
            self.filters = next;
            if !changed {
                self.availability = avail;
                self.lemma_options = options;
                assert(synced(self.db@, sv, here, (4 - round) as nat) == (self.filters.model(), here));
                return;
            }
            round = round + 1;
        }
        self.availability = availability(&self.db, &self.filters, &self.filter_sections);
        self.lemma_options = unwrap_options(self.db.load_lemma_options(&self.filters));
    }

    fn least_selected_lemma(&self) -> (r: Option<i64>)
        ensures
            match r {
                Some(x) => !self.filters.lemma_ids().is_empty() && x == least(self.filters.lemma_ids()),
                None => self.filters.lemma_ids().is_empty(),
            },
    {
        let s = self.filters.selected_lemma_ids();
        let mut best: Option<i64> = None;
        let ghost items = s.iter().remaining().unref();
        proof {
            vstd::std_specs::btree::axiom_spec_btree_keys_iter(s);
        }
        let ghost mut k: int = 0;
        for x in it: s.iter()
            invariant
                items == s.iter().remaining().unref(),
                items.to_set() == s@,
                it.seq().unref() == items,
                k == it.index(),
                match best {
                    Some(b) => items.take(k).contains(b) && forall|y: i64| items.take(k).contains(y) ==> b <= y,
                    None => k == 0,
                },
        {
            assert(*x == it.seq()[it.index() as int]);
            let ghost t = items.take(k);
            assert(items.take(k + 1) =~= t.push(*x));
            let ghost old_best = best;
            match best {
                Some(b) => {
                    if *x < b {
                        best = Some(*x);
                    }
                },
                None => {
                    best = Some(*x);
                },
            }
            proof {
                assert(t.push(*x)[t.len() as int] == *x);
                assert(t.push(*x).contains(*x));
                assert forall|y: i64| t.push(*x).contains(y) implies best.unwrap() <= y by {
                    if y != *x {
                        assert(t.contains(y));
                    }
                }
                if let Some(b) = old_best {
                    if !(*x < b) {
                        assert(t.push(*x).contains(b));
                    }
                }
                k = k + 1;
            }
        }
        assert(k == items.len());
        assert(items.take(k) =~= items);
        match best {
            Some(b) => {
                proof {
                    assert(s@.contains(b));
                    let c = least(s@);
                    assert(s@.contains(c) && forall|y: i64| s@.contains(y) ==> c <= y);
                    assert(c <= b && b <= c);
                }
                Some(b)
            },
            None => {
                assert(items =~= Seq::<i64>::empty());
                assert(s@ =~= Set::<i64>::empty());
                None
            },
        }
    }

    fn refresh_stem_view(&mut self)
        ensures
            final(self).stem_shown(),
            final(self).same_setting(old(self)),
            final(self).mode == old(self).mode,
            final(self).filters == old(self).filters,
            final(self).availability == old(self).availability,
            final(self).lemma_options == old(self).lemma_options,
            final(self).pool == old(self).pool,
            final(self).current_question == old(self).current_question,
    {
        let active: Option<i64> = match self.least_selected_lemma() {
            Some(x) => Some(x),
            None => match &self.current_question {
                Some(q) => Some(q.lemma_id),
                None => {
                    if self.lemma_options.len() > 0 {
                        Some(self.lemma_options[0].id)
                    } else {
                        None
                    }
                },
            },
        };
        assert(active == active_lemma(
            self.filters.lemma_ids(),
            opt_question(self.current_question),
            lemma_option_views(self.lemma_options@),
        ));
        match active {
            Some(id) => {
                self.stem_view = match self.db.load_stem_view(id) {
                    Ok(o) => o,
                    Err(_) => None,
                };
            },
            None => {
                self.stem_view = None;
            },
        }
    }

    /// Keeps the filters to what is available, draws a new pool of at most
    /// `POOL_SIZE` rows that pass them, makes a question from it and shows
    /// the paradigm of the active lemma.
    pub fn reload_questions(&mut self)
        requires
            forms_fit(row_views(old(self).db.rows@)),
        ensures
            final(self).reloaded(old(self), old(self).filters.model()),
            final(self).wf(),
    {
        self.sync_filter_state();
        self.pool = match self.db.load_candidate_rows(&self.filters, POOL_SIZE) {
            Ok(v) => v,
            Err(_) => Vec::new(),
        };
        proof {
            let m = rows_matching(self.db@.rows, self.filters.model(), None, false);
            lemma_rows_matching_members(self.db@.rows, self.filters.model(), None, false);
            assert forall|i: int| 0 <= i < self.pool@.len() implies (#[trigger] self.pool@[i])@.form.len() < usize::MAX by {
                let p = choose|p: Seq<usize>|
                    is_order(p, m.len()) && forall|k: int| 0 <= k < row_views(self.pool@).len() ==> #[trigger] row_views(self.pool@)[k] == m[p[k] as int];
                assert(row_views(self.pool@)[i] == m[p[i] as int]);
                assert(p[i] < m.len());
                assert(m.contains(m[p[i] as int]));
                let j = choose|j: int| 0 <= j < self.db@.rows.len() && self.db@.rows[j] == m[p[i] as int];
                assert(row_views(self.db.rows@)[j].form.len() < usize::MAX);
            }
        }
        self.current_question = generate_question(self.pool.as_slice(), &self.constants, self.mode);
        self.refresh_stem_view();
        proof {
            assert forall|i: int| 0 <= i < row_views(self.pool@).len() implies (#[trigger] row_views(self.pool@)[i]).form.len() < usize::MAX by {
                assert(row_views(self.pool@)[i] == self.pool@[i]@);
            }
        }
    }
}


/// The statistics after one more answer.
pub open spec fn stats_after(s: SessionStats, correct: bool) -> SessionStats {
    SessionStats {
        answered: (s.answered + 1) as usize,
        correct: if correct { (s.correct + 1) as usize } else { s.correct },
        streak: if correct { (s.streak + 1) as usize } else { 0 },
        best_streak: if correct && s.streak + 1 > s.best_streak { (s.streak + 1) as usize } else { s.best_streak },
    }
}

/// The question with an option chosen.
pub open spec fn with_choice(q: QuestionView, id: Seq<char>) -> QuestionView {
    QuestionView {
        lemma_id: q.lemma_id,
        mode: q.mode,
        prompt: q.prompt,
        clue: q.clue,
        options: q.options,
        correct_option_ids: q.correct_option_ids,
        selected_option_id: Some(id),
        accepted_text_answers: q.accepted_text_answers,
        text_entry: q.text_entry,
        submitted_text: q.submitted_text,
    }
}

/// The question with a text answer submitted.
pub open spec fn with_submission(q: QuestionView, text: Seq<char>) -> QuestionView {
    QuestionView {
        lemma_id: q.lemma_id,
        mode: q.mode,
        prompt: q.prompt,
        clue: q.clue,
        options: q.options,
        correct_option_ids: q.correct_option_ids,
        selected_option_id: q.selected_option_id,
        accepted_text_answers: q.accepted_text_answers,
        text_entry: q.text_entry,
        submitted_text: Some(text),
    }
}

/// The question with the text being typed replaced.
pub open spec fn with_entry(q: QuestionView, text: Seq<char>) -> QuestionView {
    QuestionView {
        lemma_id: q.lemma_id,
        mode: q.mode,
        prompt: q.prompt,
        clue: q.clue,
        options: q.options,
        correct_option_ids: q.correct_option_ids,
        selected_option_id: q.selected_option_id,
        accepted_text_answers: q.accepted_text_answers,
        text_entry: text,
        submitted_text: q.submitted_text,
    }
}

/// Whether a typed answer is one of the accepted answers once both are normalized.
pub open spec fn text_accepted(q: QuestionView, text: Seq<char>) -> bool {
    exists|i: int|
        0 <= i < q.accepted_text_answers.len() && #[trigger] crate::quiz::normalized_seq(q.accepted_text_answers[i])
            == crate::quiz::normalized_seq(text)
}

/// The filters after toggling a lemma.
pub open spec fn lemma_toggled(f: FilterModel, id: i64) -> FilterModel {
    FilterModel { selection: f.selection, lemma_ids: crate::models::toggled(f.lemma_ids, id) }
}

/// The filters after toggling a constant.
pub open spec fn constant_toggled(f: FilterModel, category: Seq<char>, id: i64) -> FilterModel {
    FilterModel { selection: crate::models::selection_toggled(f.selection, category, id), lemma_ids: f.lemma_ids }
}

/// No filter at all.
pub open spec fn no_filters() -> FilterModel {
    FilterModel { selection: Seq::empty(), lemma_ids: Set::empty() }
}

/// The saved presets as names and filters.
pub open spec fn preset_models(p: Seq<(String, FilterState)>) -> Seq<(Seq<char>, FilterModel)> {
    p.map_values(|e: (String, FilterState)| (e.0@, e.1.model()))
}

/// Where a new preset goes among presets sorted by name: after the leading
/// ones whose names come before it.
pub open spec fn preset_position(s: Seq<(Seq<char>, FilterModel)>, name: Seq<char>) -> nat
    decreases s.len(),
{
    if s.len() > 0 && s[0].0 != name && crate::quiz::lex_le(s[0].0, name) {
        1 + preset_position(s.drop_first(), name)
    } else {
        0
    }
}

/// The presets with `name` bound to `f`: the preset of that name replaced,
/// or a new one in its place by name.
pub open spec fn presets_put(s: Seq<(Seq<char>, FilterModel)>, name: Seq<char>, f: FilterModel) -> Seq<(Seq<char>, FilterModel)> {
    match crate::models::assoc_index(s, name) {
        Some(i) => s.update(i, (name, f)),
        None => s.insert(preset_position(s, name) as int, (name, f)),
    }
}

/// The presets without the one named `name`.
pub open spec fn presets_removed(s: Seq<(Seq<char>, FilterModel)>, name: Seq<char>) -> Seq<(Seq<char>, FilterModel)> {
    match crate::models::assoc_index(s, name) {
        Some(i) => s.remove(i),
        None => s,
    }
}

impl Session {
    /// The parts that answering leaves as they are.
    pub open spec fn same_but_question(&self, other: &Session) -> bool {
        &&& self.db == other.db
        &&& self.constants == other.constants
        &&& self.filter_sections == other.filter_sections
        &&& self.filters == other.filters
        &&& self.availability == other.availability
        &&& self.lemma_options == other.lemma_options
        &&& self.pool == other.pool
        &&& self.mode == other.mode
        &&& self.screen == other.screen
        &&& self.filter_drawer_open == other.filter_drawer_open
        &&& self.stem_view == other.stem_view
        &&& self.lemma_search_query == other.lemma_search_query
        &&& self.preset_name_input == other.preset_name_input
        &&& self.presets == other.presets
    }

    /// A session on the database, with the saved statistics and presets and
    /// no filter: the first pool and question are drawn at once.
    pub fn new(db: Database, stats: SessionStats, presets: Vec<(String, FilterState)>) -> (r: Session)
        requires
            forms_fit(row_views(db.rows@)),
        ensures
            r.db == db,
            r.constants@ == db@.constants,
            section_views(r.filter_sections@) == db@.sections,
            r.stats == stats,
            r.presets == presets,
            r.mode == QuizMode::ParseForm,
            r.screen == Screen::Quiz,
            !r.filter_drawer_open,
            r.lemma_search_query@ == Seq::<char>::empty(),
            r.preset_name_input@ == Seq::<char>::empty(),
            r.synced_from(no_filters()),
            r.pool_drawn(),
            r.stem_shown(),
            r.wf(),
    {
        let constants = match db.load_constants() {
            Ok(c) => c,
            Err(_) => ConstantTable::new(),
        };
        let filter_sections = match db.load_filter_sections() {
            Ok(s) => s,
            Err(_) => Vec::new(),
        };
        let filters = FilterState::new();
        assert(filters.model() == no_filters());
        let mut s = Session {
            db,
            constants,
            filter_sections,
            filters,
            availability: Vec::new(),
            lemma_options: Vec::new(),
            pool: Vec::new(),
            current_question: None,
            mode: QuizMode::ParseForm,
            screen: Screen::Quiz,
            filter_drawer_open: false,
            stem_view: None,
            stats,
            lemma_search_query: String::new(),
            preset_name_input: String::new(),
            presets,
        };
        s.reload_questions();
        s
    }

    /// Records the chosen option of the current question, when it has none
    /// yet, and counts the answer; tells whether the statistics changed.
    pub fn answer(&mut self, option_id: String) -> (r: bool)
        requires
            old(self).stats.answered < usize::MAX,
            old(self).stats.correct < usize::MAX,
            old(self).stats.streak < usize::MAX,
        ensures
            final(self).same_but_question(old(self)),
            match old(self).current_question {
                Some(q) => if q.selected_option_id is None {
                    &&& r
                    &&& opt_question(final(self).current_question) == Some(with_choice(q@, option_id@))
                    &&& final(self).stats == stats_after(
                        old(self).stats,
                        q.correct_option_ids.deep_view().contains(option_id@),
                    )
                } else {
                    &&& !r
                    &&& final(self).current_question == old(self).current_question
                    &&& final(self).stats == old(self).stats
                },
                None => !r && final(self).current_question == old(self).current_question && final(self).stats == old(
                    self,
                ).stats,
            },
    {
        let taken = self.current_question.take();
        match taken {
            Some(mut q) => {
                if q.selected_option_id.is_none() {
                    let was_correct = q.is_correct(option_id.as_str());
                    q.selected_option_id = Some(option_id);
                    self.current_question = Some(q);
                    self.stats.register(was_correct);
                    true
                } else {
                    self.current_question = Some(q);
                    false
                }
            },
            None => false,
        }
    }

    /// Replaces the text being typed, when the question is answered by
    /// typing and no answer was submitted yet.
    pub fn update_text_answer(&mut self, value: String)
        ensures
            final(self).same_but_question(old(self)),
            final(self).stats == old(self).stats,
            match old(self).current_question {
                Some(q) => if q.accepted_text_answers@.len() > 0 && q.submitted_text is None {
                    opt_question(final(self).current_question) == Some(with_entry(q@, value@))
                } else {
                    final(self).current_question == old(self).current_question
                },
                None => final(self).current_question == old(self).current_question,
            },
    {
        let taken = self.current_question.take();
        match taken {
            Some(mut q) => {
                if q.uses_text_entry() && q.submitted_text.is_none() {
                    q.text_entry = value;
                }
                self.current_question = Some(q);
            },
            None => {},
        }
    }

    /// Submits the typed answer, trimmed, when the question is answered by
    /// typing, nothing was submitted yet and the answer is not empty, and
    /// counts it; tells whether the statistics changed.
    pub fn submit_text_answer(&mut self) -> (r: bool)
        requires
            old(self).stats.answered < usize::MAX,
            old(self).stats.correct < usize::MAX,
            old(self).stats.streak < usize::MAX,
        ensures
            final(self).same_but_question(old(self)),
            match old(self).current_question {
                Some(q) => if q.accepted_text_answers@.len() > 0 && q.submitted_text is None && crate::text::trim(
                    q.text_entry@,
                ).len() > 0 {
                    &&& r
                    &&& opt_question(final(self).current_question) == Some(
                        with_submission(q@, crate::text::trim(q.text_entry@)),
                    )
                    &&& final(self).stats == stats_after(
                        old(self).stats,
                        text_accepted(q@, crate::text::trim(q.text_entry@)),
                    )
                } else {
                    &&& !r
                    &&& final(self).current_question == old(self).current_question
                    &&& final(self).stats == old(self).stats
                },
                None => !r && final(self).current_question == old(self).current_question && final(self).stats == old(
                    self,
                ).stats,
            },
    {
        let taken = self.current_question.take();
        match taken {
            Some(mut q) => {
                if q.uses_text_entry() && q.submitted_text.is_none() {
                    let submitted = crate::text::trim_str(q.text_entry.as_str());
                    if submitted.unicode_len() == 0 {
                        self.current_question = Some(q);
                        return false;
                    }
                    let was_correct = crate::quiz::is_correct_text_answer(&q, submitted.as_str());
                    proof {
                        let qa = q@.accepted_text_answers;
                        assert forall|i: int| 0 <= i < qa.len() implies qa[i] == q.accepted_text_answers@[i]@ by {}
                        if was_correct {
                            let i = choose|i: int|
                                0 <= i < q.accepted_text_answers@.len() && #[trigger] crate::quiz::normalized_seq(
                                    q.accepted_text_answers@[i]@,
                                ) == crate::quiz::normalized_seq(submitted@);
                            assert(qa[i] == q.accepted_text_answers@[i]@);
                        }
                        if text_accepted(q@, submitted@) {
                            let i = choose|i: int|
                                0 <= i < qa.len() && #[trigger] crate::quiz::normalized_seq(qa[i]) == crate::quiz::normalized_seq(submitted@);
                            assert(crate::quiz::normalized_seq(q.accepted_text_answers@[i]@) == crate::quiz::normalized_seq(submitted@));
                        }
                        assert(was_correct == text_accepted(q@, submitted@));
                    }
                    q.submitted_text = Some(submitted);
                    self.current_question = Some(q);
                    self.stats.register(was_correct);
                    true
                } else {
                    self.current_question = Some(q);
                    false
                }
            },
            None => false,
        }
    }

    /// Opens or closes the filter drawer.
    pub fn set_filter_drawer(&mut self, open: bool)
        ensures
            final(self).filter_drawer_open == open,
            final(self).db == old(self).db,
            final(self).filters == old(self).filters,
            final(self).pool == old(self).pool,
            final(self).current_question == old(self).current_question,
            final(self).stats == old(self).stats,
            final(self).screen == old(self).screen,
            final(self).mode == old(self).mode,
            final(self).stem_view == old(self).stem_view,
            final(self).presets == old(self).presets,
    {
        self.filter_drawer_open = open;
    }

    /// Switches the screen and shows the paradigm of the active lemma.
    pub fn set_screen(&mut self, screen: Screen)
        ensures
            final(self).screen == screen,
            final(self).stem_shown(),
            final(self).db == old(self).db,
            final(self).constants == old(self).constants,
            final(self).filter_sections == old(self).filter_sections,
            final(self).filters == old(self).filters,
            final(self).availability == old(self).availability,
            final(self).lemma_options == old(self).lemma_options,
            final(self).pool == old(self).pool,
            final(self).current_question == old(self).current_question,
            final(self).stats == old(self).stats,
            final(self).mode == old(self).mode,
            final(self).filter_drawer_open == old(self).filter_drawer_open,
            final(self).presets == old(self).presets,
    {
        self.screen = screen;
        self.refresh_stem_view();
    }

    /// Forgets the statistics.
    pub fn reset_stats(&mut self)
        ensures
            final(self).same_but_question(old(self)),
            final(self).current_question == old(self).current_question,
            final(self).stats == (SessionStats { answered: 0, correct: 0, streak: 0, best_streak: 0 }),
    {
        self.stats = SessionStats::new();
    }

    /// Selects or unselects a lemma and reloads.
    pub fn toggle_lemma(&mut self, id: i64)
        requires
            old(self).wf(),
        ensures
            final(self).reloaded(old(self), lemma_toggled(old(self).filters.model(), id)),
            final(self).wf(),
    {
        self.filters.toggle_lemma(id);
        self.reload_questions();
    }

    /// Selects or unselects a constant of a category and reloads.
    pub fn toggle_filter(&mut self, category: &str, constant_id: i64)
        requires
            old(self).wf(),
        ensures
            final(self).reloaded(old(self), constant_toggled(old(self).filters.model(), category@, constant_id)),
            final(self).wf(),
    {
        self.filters.toggle_constant(category, constant_id);
        self.reload_questions();
    }

    /// Drops every filter and reloads.
    pub fn clear_filters(&mut self)
        requires
            old(self).wf(),
        ensures
            final(self).reloaded(old(self), no_filters()),
            final(self).wf(),
    {
        self.filters = FilterState::new();
        self.reload_questions();
    }

    /// Moves on to a new question from the pool; when the pool gives none,
    /// reloads.
    pub fn next_question(&mut self)
        requires
            old(self).wf(),
        ensures
            final(self).wf(),
            final(self).mode == old(self).mode,
            if crate::quiz::question_possible(old(self).mode, row_views(old(self).pool@), old(self).constants@) {
                &&& final(self).current_question is Some
                &&& question_for(old(self).mode, row_views(old(self).pool@), old(self).constants@, opt_question(final(self).current_question))
                &&& final(self).same_setting(old(self))
                &&& final(self).filters == old(self).filters
                &&& final(self).availability == old(self).availability
                &&& final(self).lemma_options == old(self).lemma_options
                &&& final(self).pool == old(self).pool
                &&& final(self).stem_shown()
            } else {
                final(self).reloaded(old(self), old(self).filters.model())
            },
    {
        proof {
            assert forall|i: int| 0 <= i < self.pool@.len() implies (#[trigger] self.pool@[i]).form@.len() < usize::MAX by {
                assert(row_views(self.pool@)[i] == self.pool@[i]@);
            }
        }
        self.current_question = generate_question(self.pool.as_slice(), &self.constants, self.mode);
        if self.current_question.is_none() {
            self.reload_questions();
        }
        self.refresh_stem_view();
    }

    /// Switches the kind of question and moves on to a new one.
    pub fn set_mode(&mut self, mode: QuizMode)
        requires
            old(self).wf(),
        ensures
            final(self).wf(),
            final(self).mode == mode,
            if crate::quiz::question_possible(mode, row_views(old(self).pool@), old(self).constants@) {
                &&& final(self).current_question is Some
                &&& question_for(mode, row_views(old(self).pool@), old(self).constants@, opt_question(final(self).current_question))
                &&& final(self).same_setting(old(self))
                &&& final(self).filters == old(self).filters
                &&& final(self).pool == old(self).pool
                &&& final(self).stem_shown()
            } else {
                &&& final(self).same_setting(old(self))
                &&& final(self).synced_from(old(self).filters.model())
                &&& final(self).pool_drawn()
                &&& final(self).stem_shown()
            },
    {
        self.mode = mode;
        self.next_question();
    }
}


fn preset_index(presets: &Vec<(String, FilterState)>, name: &str) -> (r: Option<usize>)
    ensures
        match r {
            Some(i) => crate::models::assoc_index(preset_models(presets@), name@) == Some(i as int),
            None => crate::models::assoc_index(preset_models(presets@), name@) is None,
        },
{
    let ghost pm = preset_models(presets@);
    let mut i: usize = 0;
    assert(pm.skip(0) =~= pm);
    while i < presets.len()
        invariant
            pm == preset_models(presets@),
            i <= pm.len(),
            crate::models::assoc_index(pm, name@) == (match crate::models::assoc_index(pm.skip(i as int), name@) {
                Some(k) => Some(k + i),
                None => None,
            }),
        decreases pm.len() - i,
    {
        assert(pm.skip(i as int)[0] == pm[i as int]);
        if str_eq(presets[i].0.as_str(), name) {
            return Some(i);
        }
        assert(pm.skip(i as int).drop_first() =~= pm.skip(i + 1));
        i = i + 1;
    }
    None
}

fn name_before(a: &str, b: &str) -> (r: bool)
    ensures
        r == (a@ != b@ && crate::quiz::lex_le(a@, b@)),
{
    if str_eq(a, b) {
        return false;
    }
    let x = crate::text::chars_of(a);
    let y = crate::text::chars_of(b);
    crate::quiz::lex_le_chars(x.as_slice(), y.as_slice())
}

fn put_preset(presets: &mut Vec<(String, FilterState)>, name: String, f: FilterState)
    ensures
        preset_models(final(presets)@) == presets_put(preset_models(old(presets)@), name@, f.model()),
{
    let ghost pm = preset_models(presets@);
    proof {
        crate::models::lemma_assoc_index(pm, name@);
    }
    match preset_index(presets, name.as_str()) {
        Some(i) => {
            let ghost e = (name@, f.model());
            presets.set(i, (name, f));
            assert(preset_models(presets@) =~= pm.update(i as int, e));
        },
        None => {
            let mut pos: usize = 0;
            assert(pm.skip(0) =~= pm);
            while pos < presets.len() && name_before(presets[pos].0.as_str(), name.as_str())
                invariant
                    pm == preset_models(presets@),
                    pos <= pm.len(),
                    preset_position(pm, name@) == pos + preset_position(pm.skip(pos as int), name@),
                decreases pm.len() - pos,
            {
                assert(pm.skip(pos as int)[0] == pm[pos as int]);
                assert(pm.skip(pos as int).drop_first() =~= pm.skip(pos + 1));
                pos = pos + 1;
            }
            proof {
                if pos < pm.len() {
                    assert(pm.skip(pos as int)[0] == pm[pos as int]);
                }
            }
            let ghost e = (name@, f.model());
            presets.insert(pos, (name, f));
            assert(preset_models(presets@) =~= pm.insert(pos as int, e));
        },
    }
}

impl Session {
    /// Saves the current filters under the typed preset name, trimmed, when
    /// it is not empty, and clears the name; tells whether the presets changed.
    pub fn save_current_preset(&mut self) -> (r: bool)
        ensures
            final(self).db == old(self).db,
            final(self).filters == old(self).filters,
            final(self).pool == old(self).pool,
            final(self).current_question == old(self).current_question,
            final(self).stats == old(self).stats,
            final(self).mode == old(self).mode,
            final(self).stem_view == old(self).stem_view,
            if crate::text::trim(old(self).preset_name_input@).len() > 0 {
                &&& r
                &&& preset_models(final(self).presets@) == presets_put(
                    preset_models(old(self).presets@),
                    crate::text::trim(old(self).preset_name_input@),
                    old(self).filters.model(),
                )
                &&& final(self).preset_name_input@ == Seq::<char>::empty()
            } else {
                &&& !r
                &&& final(self).presets == old(self).presets
                &&& final(self).preset_name_input == old(self).preset_name_input
            },
    {
        let name = crate::text::trim_str(self.preset_name_input.as_str());
        if name.unicode_len() == 0 {
            return false;
        }
        let f = self.filters.duplicate();
        put_preset(&mut self.presets, name, f);
        self.preset_name_input = String::new();
        true
    }

    /// Replaces the filters by those of the named preset, if there is one,
    /// and reloads.
    pub fn load_preset(&mut self, name: &str)
        requires
            old(self).wf(),
        ensures
            final(self).wf(),
            match crate::models::assoc_get(preset_models(old(self).presets@), name@) {
                Some(f) => final(self).reloaded(old(self), f),
                None => *final(self) == *old(self),
            },
    {
        proof {
            crate::models::lemma_assoc_index(preset_models(self.presets@), name@);
        }
        match preset_index(&self.presets, name) {
            Some(i) => {
                assert(preset_models(self.presets@)[i as int] == (self.presets@[i as int].0@, self.presets@[i as int].1.model()));
                self.filters = self.presets[i].1.duplicate();
                self.reload_questions();
            },
            None => {},
        }
    }

    /// Forgets the named preset.
    pub fn delete_preset(&mut self, name: &str)
        ensures
            preset_models(final(self).presets@) == presets_removed(preset_models(old(self).presets@), name@),
            final(self).db == old(self).db,
            final(self).filters == old(self).filters,
            final(self).pool == old(self).pool,
            final(self).current_question == old(self).current_question,
            final(self).stats == old(self).stats,
            final(self).mode == old(self).mode,
    {
        let ghost pm = preset_models(self.presets@);
        proof {
            crate::models::lemma_assoc_index(pm, name@);
        }
        match preset_index(&self.presets, name) {
            Some(i) => {
                self.presets.remove(i);
                assert(preset_models(self.presets@) =~= pm.remove(i as int));
            },
            None => {},
        }
    }
}


/// Whether the presets are in strictly increasing order of their names.
pub open spec fn names_sorted(s: Seq<(Seq<char>, FilterModel)>) -> bool {
    forall|i: int, j: int|
        0 <= i < j < s.len() ==> (#[trigger] s[i]).0 != (#[trigger] s[j]).0 && crate::quiz::lex_le(s[i].0, s[j].0)
}

proof fn lemma_sorted_keys_distinct(s: Seq<(Seq<char>, FilterModel)>)
    requires
        names_sorted(s),
    ensures
        crate::models::assoc_keys(s).no_duplicates(),
{
    let ks = crate::models::assoc_keys(s);
    assert forall|a: int, b: int| 0 <= a < ks.len() && 0 <= b < ks.len() && a != b implies ks[a] != ks[b] by {
        if a < b {
            assert(s[a].0 != s[b].0);
        } else {
            assert(s[b].0 != s[a].0);
        }
    }
}

proof fn lemma_preset_position(s: Seq<(Seq<char>, FilterModel)>, name: Seq<char>)
    requires
        names_sorted(s),
        forall|k: int| 0 <= k < s.len() ==> s[k].0 != name,
    ensures
        preset_position(s, name) <= s.len(),
        forall|i: int|
            0 <= i < preset_position(s, name) ==> crate::quiz::lex_le((#[trigger] s[i]).0, name),
        forall|i: int|
            preset_position(s, name) <= i < s.len() ==> crate::quiz::lex_le(name, (#[trigger] s[i]).0),
    decreases s.len(),
{
    if s.len() > 0 {
        let t = s.drop_first();
        assert forall|i: int, j: int| 0 <= i < j < t.len() implies (#[trigger] t[i]).0 != (#[trigger] t[j]).0
            && crate::quiz::lex_le(t[i].0, t[j].0) by {
            assert(t[i] == s[i + 1] && t[j] == s[j + 1]);
        }
        assert forall|k: int| 0 <= k < t.len() implies t[k].0 != name by {
            assert(t[k] == s[k + 1]);
        }
        lemma_preset_position(t, name);
        if s[0].0 != name && crate::quiz::lex_le(s[0].0, name) {
            assert forall|i: int| 0 <= i < preset_position(s, name) implies crate::quiz::lex_le((#[trigger] s[i]).0, name) by {
                if i > 0 {
                    assert(s[i] == t[i - 1]);
                }
            }
            assert forall|i: int| preset_position(s, name) <= i < s.len() implies crate::quiz::lex_le(name, (#[trigger] s[i]).0) by {
                assert(s[i] == t[i - 1]);
            }
        } else {
            crate::filters::lemma_lex_total(s[0].0, name);
            assert forall|i: int| 0 <= i < s.len() implies crate::quiz::lex_le(name, (#[trigger] s[i]).0) by {
                if i > 0 {
                    crate::filters::lemma_lex_transitive(name, s[0].0, s[i].0);
                }
            }
        }
    }
}

/// Saving a preset under a name keeps the presets in strictly increasing
/// order of their names; the name then gives the saved filters, and every
/// other name what it gave before.
pub proof fn law_presets_put(s: Seq<(Seq<char>, FilterModel)>, name: Seq<char>, f: FilterModel, other: Seq<char>)
    requires
        names_sorted(s),
    ensures
        names_sorted(presets_put(s, name, f)),
        crate::models::assoc_get(presets_put(s, name, f), name) == Some(f),
        other != name ==> crate::models::assoc_get(presets_put(s, name, f), other) == crate::models::assoc_get(s, other),
{
    let r = presets_put(s, name, f);
    crate::models::lemma_assoc_index(s, name);
    lemma_sorted_keys_distinct(s);
    match crate::models::assoc_index(s, name) {
        Some(i) => {
            assert forall|a: int, b: int| 0 <= a < b < r.len() implies (#[trigger] r[a]).0 != (#[trigger] r[b]).0
                && crate::quiz::lex_le(r[a].0, r[b].0) by {
                assert(r[a].0 == s[a].0 && r[b].0 == s[b].0);
            }
        },
        None => {
            lemma_preset_position(s, name);
            let p = preset_position(s, name) as int;
            assert forall|a: int, b: int| 0 <= a < b < r.len() implies (#[trigger] r[a]).0 != (#[trigger] r[b]).0
                && crate::quiz::lex_le(r[a].0, r[b].0) by {
                if b < p {
                    assert(r[a] == s[a] && r[b] == s[b]);
                } else if b == p {
                    assert(r[a] == s[a]);
                } else if a < p {
                    assert(r[a] == s[a] && r[b] == s[b - 1]);
                    crate::filters::lemma_lex_transitive(s[a].0, name, s[b - 1].0);
                    if s[a].0 == s[b - 1].0 {
                        crate::filters::lemma_lex_antisymmetric(s[a].0, name);
                    }
                } else if a == p {
                    assert(r[b] == s[b - 1]);
                } else {
                    assert(r[a] == s[a - 1] && r[b] == s[b - 1]);
                }
            }
        },
    }
    lemma_sorted_keys_distinct(r);
    match crate::models::assoc_index(s, name) {
        Some(i) => {
            crate::models::lemma_assoc_get_at(r, name, i);
        },
        None => {
            crate::models::lemma_assoc_get_at(r, name, preset_position(s, name) as int);
        },
    }
    if other != name {
        crate::models::lemma_assoc_get_unique(s, other);
        crate::models::lemma_assoc_get_unique(r, other);
        let p = preset_position(s, name) as int;
        if let Some(v) = crate::models::assoc_get(s, other) {
            let j = choose|j: int| 0 <= j < s.len() && s[j] == (other, v);
            match crate::models::assoc_index(s, name) {
                Some(i) => {
                    assert(r[j] == s[j]);
                    crate::models::lemma_assoc_get_at(r, other, j);
                },
                None => {
                    if j < p {
                        assert(r[j] == s[j]);
                        crate::models::lemma_assoc_get_at(r, other, j);
                    } else {
                        assert(r[j + 1] == s[j]);
                        crate::models::lemma_assoc_get_at(r, other, j + 1);
                    }
                },
            }
        } else {
            assert forall|k: int| 0 <= k < r.len() implies r[k].0 != other by {
                match crate::models::assoc_index(s, name) {
                    Some(i) => {
                        if k != i {
                            assert(r[k] == s[k]);
                        }
                    },
                    None => {
                        if k < p {
                            assert(r[k] == s[k]);
                        } else if k > p {
                            assert(r[k] == s[k - 1]);
                        }
                    },
                }
            }
            crate::models::lemma_assoc_get_none(r, other);
        }
    }
}


// ---------------------------------------------------------------------------
// Laws of keeping the filters to what is available
// ---------------------------------------------------------------------------

proof fn lemma_non_empty_entries_all(s: Seq<(Seq<char>, Set<i64>)>)
    requires
        forall|i: int| 0 <= i < s.len() ==> !(#[trigger] s[i]).1.is_empty(),
    ensures
        non_empty_entries(s) == s,
    decreases s.len(),
{
    if s.len() > 0 {
        lemma_non_empty_entries_all(s.drop_last());
        assert(s.drop_last().push(s.last()) =~= s);
    }
}

proof fn lemma_non_empty_entries_from(s: Seq<(Seq<char>, Set<i64>)>)
    ensures
        forall|j: int| 0 <= j < non_empty_entries(s).len() ==> !(#[trigger] non_empty_entries(s)[j]).1.is_empty(),
        forall|j: int| 0 <= j < non_empty_entries(s).len() ==> s.contains(#[trigger] non_empty_entries(s)[j]),
        crate::models::assoc_keys(s).no_duplicates() ==> crate::models::assoc_keys(non_empty_entries(s)).no_duplicates(),
    decreases s.len(),
{
    if s.len() > 0 {
        let t = s.drop_last();
        lemma_non_empty_entries_from(t);
        let n = non_empty_entries(t);
        assert forall|j: int| 0 <= j < n.len() implies s.contains(#[trigger] n[j]) by {
            let i = choose|i: int| 0 <= i < t.len() && t[i] == n[j];
            assert(s[i] == t[i]);
        }
        if !s.last().1.is_empty() {
            let r = non_empty_entries(s);
            assert(r == n.push(s.last()));
            assert(s[s.len() - 1] == s.last());
            if crate::models::assoc_keys(s).no_duplicates() {
                assert(crate::models::assoc_keys(t) =~= crate::models::assoc_keys(s).drop_last());
                let ks = crate::models::assoc_keys(r);
                assert forall|a: int, b: int| 0 <= a < ks.len() && 0 <= b < ks.len() && a != b implies ks[a] != ks[b] by {
                    if a < n.len() && b < n.len() {
                        assert(ks[a] == crate::models::assoc_keys(n)[a]);
                        assert(ks[b] == crate::models::assoc_keys(n)[b]);
                    } else if a < n.len() {
                        let i = choose|i: int| 0 <= i < t.len() && t[i] == n[a];
                        assert(crate::models::assoc_keys(s)[i] == n[a].0);
                        assert(crate::models::assoc_keys(s)[s.len() - 1] == s.last().0);
                    } else if b < n.len() {
                        let i = choose|i: int| 0 <= i < t.len() && t[i] == n[b];
                        assert(crate::models::assoc_keys(s)[i] == n[b].0);
                        assert(crate::models::assoc_keys(s)[s.len() - 1] == s.last().0);
                    }
                }
            }
        } else {
            if crate::models::assoc_keys(s).no_duplicates() {
                assert(crate::models::assoc_keys(t) =~= crate::models::assoc_keys(s).drop_last());
            }
        }
    }
}

/// One round of keeping the filters to what is available leaves them well
/// formed: no category twice, none with an empty selection.
pub proof fn lemma_sync_round_wf(db: DatabaseView, f: FilterModel, sections: Seq<FilterSectionView>)
    requires
        crate::models::selection_wf(f.selection),
    ensures
        crate::models::selection_wf(sync_round(db, f, sections).0.selection),
{
    let keys = section_keys(sections);
    let mapped = f.selection.map_values(|e: (Seq<char>, Set<i64>)| narrowed(e, db.rows, f, keys));
    assert(crate::models::assoc_keys(mapped) =~= crate::models::assoc_keys(f.selection));
    lemma_non_empty_entries_from(mapped);
}

/// A round that finds every selected constant and lemma available leaves
/// the filters exactly as they were.
pub proof fn law_sync_round_keeps_available(db: DatabaseView, f: FilterModel, sections: Seq<FilterSectionView>)
    requires
        crate::models::selection_wf(f.selection),
        !sync_round(db, f, sections).1,
    ensures
        sync_round(db, f, sections).0 == f,
{
    let keys = section_keys(sections);
    let ids = option_ids(lemma_options_of(db, f));
    let mapped = f.selection.map_values(|e: (Seq<char>, Set<i64>)| narrowed(e, db.rows, f, keys));
    assert forall|i: int| 0 <= i < f.selection.len() implies mapped[i] == f.selection[i] by {
        let e = f.selection[i];
        if keys.contains(e.0) {
            assert(e.1.intersect(available_ids(db.rows, f, e.0)) =~= e.1) by {
                assert forall|x: i64| e.1.contains(x) implies available_ids(db.rows, f, e.0).contains(x) by {
                    if !available_ids(db.rows, f, e.0).contains(x) {
                        assert(f.selection[i].1.contains(x));
                        assert(selection_narrows(db.rows, f, keys));
                    }
                }
            }
        }
    }
    assert(mapped =~= f.selection);
    lemma_non_empty_entries_all(f.selection);
    assert(f.lemma_ids.intersect(ids) =~= f.lemma_ids);
}

/// Whether keeping the filters to what is available comes to rest, with a
/// round that drops nothing, within `n` rounds.
pub open spec fn sync_settles(db: DatabaseView, sections: Seq<FilterSectionView>, f: FilterModel, n: nat) -> bool
    decreases n,
{
    n > 0 && (!sync_round(db, f, sections).1 || sync_settles(db, sections, sync_round(db, f, sections).0, (n - 1) as nat))
}

/// Filters that keeping to what is available brought to rest stay as they
/// are when they are kept to what is available again: the filters that a
/// reload settles on are available as a whole, and a second reload keeps them.
pub proof fn law_sync_idempotent(db: DatabaseView, sections: Seq<FilterSectionView>, f: FilterModel, n: nat, m: nat)
    requires
        crate::models::selection_wf(f.selection),
        sync_settles(db, sections, f, n),
        m > 0,
    ensures
        !sync_round(db, synced(db, sections, f, n).0, sections).1,
        synced(db, sections, synced(db, sections, f, n).0, m).0 == synced(db, sections, f, n).0,
    decreases n,
{
    let (g, changed) = sync_round(db, f, sections);
    if !changed {
        law_sync_round_keeps_available(db, f, sections);
        assert(synced(db, sections, f, n).0 == f);
        assert(synced(db, sections, f, m) == (g, f));
    } else {
        lemma_sync_round_wf(db, f, sections);
        law_sync_idempotent(db, sections, g, (n - 1) as nat, m);
    }
}


/// After a reload whose filters came to rest within its rounds, a second
/// reload keeps the filters as they are.
pub proof fn law_reload_keeps_settled_filters(s: Session, start: FilterModel)
    requires
        s.synced_from(start),
        crate::models::selection_wf(start.selection),
        sync_settles(s.db@, section_views(s.filter_sections@), start, 4),
    ensures
        synced(s.db@, section_views(s.filter_sections@), s.filters.model(), 4).0 == s.filters.model(),
{
    law_sync_idempotent(s.db@, section_views(s.filter_sections@), start, 4, 4);
}

} // verus!
