//! The data the trainer works on: grammatical constants, quiz rows, filter
//! selections, questions, paradigm tables for display and session statistics.
use std::collections::BTreeSet;
use vstd::prelude::*;

use crate::text::str_eq;

verus! {

broadcast use vstd::std_specs::btree::group_btree_axioms, vstd::laws_cmp::group_laws_cmp;

/// The value of `key` in an association list: the first entry with that key.
pub open spec fn assoc_get<V>(s: Seq<(Seq<char>, V)>, key: Seq<char>) -> Option<V>
    decreases s.len(),
{
    if s.len() == 0 {
        None
    } else if s[0].0 == key {
        Some(s[0].1)
    } else {
        assoc_get(s.drop_first(), key)
    }
}

/// The index of the first entry with `key`, if any.
pub open spec fn assoc_index<V>(s: Seq<(Seq<char>, V)>, key: Seq<char>) -> Option<int>
    decreases s.len(),
{
    if s.len() == 0 {
        None
    } else if s[0].0 == key {
        Some(0)
    } else {
        match assoc_index(s.drop_first(), key) {
            Some(i) => Some(i + 1),
            None => None,
        }
    }
}

/// The keys of an association list.
pub open spec fn assoc_keys<V>(s: Seq<(Seq<char>, V)>) -> Seq<Seq<char>> {
    s.map_values(|e: (Seq<char>, V)| e.0)
}

/// `s` with `key` bound to `v`: the entry with that key replaced in place, or a
/// new entry at the end.
pub open spec fn assoc_put<V>(s: Seq<(Seq<char>, V)>, key: Seq<char>, v: V) -> Seq<(Seq<char>, V)>
    decreases s.len(),
{
    if s.len() == 0 {
        seq![(key, v)]
    } else if s[0].0 == key {
        s.update(0, (key, v))
    } else {
        seq![s[0]] + assoc_put(s.drop_first(), key, v)
    }
}

pub proof fn lemma_assoc_index<V>(s: Seq<(Seq<char>, V)>, key: Seq<char>)
    ensures
        assoc_index(s, key) matches Some(i) ==> 0 <= i < s.len() && s[i].0 == key && assoc_get(s, key)
            == Some(s[i].1) && forall|j: int| 0 <= j < i ==> s[j].0 != key,
        assoc_index(s, key) is None ==> assoc_get(s, key) is None && forall|j: int|
            0 <= j < s.len() ==> s[j].0 != key,
    decreases s.len(),
{
    if s.len() > 0 && s[0].0 != key {
        lemma_assoc_index(s.drop_first(), key);
        if let Some(i) = assoc_index(s, key) {
            assert forall|j: int| 0 <= j < i implies s[j].0 != key by {
                if j > 0 {
                    assert(s[j] == s.drop_first()[j - 1]);
                }
            }
        } else {
            assert forall|j: int| 0 <= j < s.len() implies s[j].0 != key by {
                if j > 0 {
                    assert(s[j] == s.drop_first()[j - 1]);
                }
            }
        }
    }
}

pub proof fn lemma_assoc_put<V>(s: Seq<(Seq<char>, V)>, key: Seq<char>, v: V, other: Seq<char>)
    ensures
        assoc_get(assoc_put(s, key, v), key) == Some(v),
        other != key ==> assoc_get(assoc_put(s, key, v), other) == assoc_get(s, other),
        assoc_keys(assoc_put(s, key, v)).to_set() == assoc_keys(s).to_set().insert(key),
        assoc_keys(s).no_duplicates() ==> assoc_keys(assoc_put(s, key, v)).no_duplicates(),
    decreases s.len(),
{
    let r = assoc_put(s, key, v);
    if s.len() == 0 {
        assert(r.drop_first() =~= s);
        assert(assoc_keys(r) =~= seq![key]);
        assert(assoc_keys(s).to_set() =~= Set::empty());
        assert(seq![key].to_set() =~= Set::empty().insert(key)) by {
            assert(seq![key][0] == key);
        }
    } else if s[0].0 == key {
        assert(r.drop_first() =~= s.drop_first());
        assert(assoc_keys(r) =~= assoc_keys(s));
        assert(assoc_keys(s).to_set() =~= assoc_keys(s).to_set().insert(key)) by {
            assert(assoc_keys(s)[0] == key);
        }
    } else {
        lemma_assoc_put(s.drop_first(), key, v, other);
        assert(r.drop_first() =~= assoc_put(s.drop_first(), key, v));
        assert(assoc_keys(r) =~= seq![s[0].0] + assoc_keys(assoc_put(s.drop_first(), key, v)));
        assert(assoc_keys(s) =~= seq![s[0].0] + assoc_keys(s.drop_first()));
        let a = assoc_keys(s.drop_first());
        let b = assoc_keys(assoc_put(s.drop_first(), key, v));
        assert((seq![s[0].0] + b).to_set() =~= b.to_set().insert(s[0].0)) by {
            assert forall|x| (seq![s[0].0] + b).to_set().contains(x) <==> b.to_set().insert(s[0].0).contains(x) by {
                if (seq![s[0].0] + b).contains(x) {
                    let i = choose|i: int| 0 <= i < (seq![s[0].0] + b).len() && (seq![s[0].0] + b)[i] == x;
                    if i > 0 {
                        assert(b[i - 1] == x);
                    }
                }
                if b.contains(x) {
                    let i = choose|i: int| 0 <= i < b.len() && b[i] == x;
                    assert((seq![s[0].0] + b)[i + 1] == x);
                }
                assert((seq![s[0].0] + b)[0] == s[0].0);
            }
        }
        assert((seq![s[0].0] + a).to_set() =~= a.to_set().insert(s[0].0)) by {
            assert forall|x| (seq![s[0].0] + a).to_set().contains(x) <==> a.to_set().insert(s[0].0).contains(x) by {
                if (seq![s[0].0] + a).contains(x) {
                    let i = choose|i: int| 0 <= i < (seq![s[0].0] + a).len() && (seq![s[0].0] + a)[i] == x;
                    if i > 0 {
                        assert(a[i - 1] == x);
                    }
                }
                if a.contains(x) {
                    let i = choose|i: int| 0 <= i < a.len() && a[i] == x;
                    assert((seq![s[0].0] + a)[i + 1] == x);
                }
                assert((seq![s[0].0] + a)[0] == s[0].0);
            }
        }
        if assoc_keys(s).no_duplicates() {
            assert(a.no_duplicates()) by {
                assert forall|i: int, j: int| 0 <= i < a.len() && 0 <= j < a.len() && i != j implies a[i] != a[j] by {
                    assert(a[i] == assoc_keys(s)[i + 1]);
                    assert(a[j] == assoc_keys(s)[j + 1]);
                }
            }
            assert(!a.contains(s[0].0)) by {
                if a.contains(s[0].0) {
                    let i = choose|i: int| 0 <= i < a.len() && a[i] == s[0].0;
                    assert(assoc_keys(s)[i + 1] == assoc_keys(s)[0]);
                }
            }
            assert(!b.to_set().contains(s[0].0));
            let c = seq![s[0].0] + b;
            assert forall|i: int, j: int| 0 <= i < c.len() && 0 <= j < c.len() && i != j implies c[i] != c[j] by {
                if i == 0 && j > 0 {
                    assert(b.contains(c[j]));
                } else if j == 0 && i > 0 {
                    assert(b.contains(c[i]));
                } else if i > 0 && j > 0 {
                    assert(c[i] == b[i - 1] && c[j] == b[j - 1]);
                }
            }
        }
    }
}

/// A grammatical constant: one value of one category (a case, a tense, ...).
#[derive(Debug)]
pub struct GrammarConstant {
    pub id: i64,
    pub category: String,
    pub label: String,
    pub display_label: String,
    pub sort_order: i64,
}

/// The plain contents of a `GrammarConstant`.
pub struct ConstantView {
    pub id: i64,
    pub category: Seq<char>,
    pub label: Seq<char>,
    pub display_label: Seq<char>,
    pub sort_order: i64,
}

impl View for GrammarConstant {
    type V = ConstantView;

    open spec fn view(&self) -> ConstantView {
        ConstantView {
            id: self.id,
            category: self.category@,
            label: self.label@,
            display_label: self.display_label@,
            sort_order: self.sort_order,
        }
    }
}

impl GrammarConstant {
    /// A copy of this constant.
    pub fn duplicate(&self) -> (r: GrammarConstant)
        ensures
            r@ == self@,
    {
        GrammarConstant {
            id: self.id,
            category: self.category.clone(),
            label: self.label.clone(),
            display_label: self.display_label.clone(),
            sort_order: self.sort_order,
        }
    }
}

/// The views of a sequence of constants.
pub open spec fn constant_views(s: Seq<GrammarConstant>) -> Seq<ConstantView> {
    s.map_values(|c: GrammarConstant| c@)
}

/// The first constant with the given id.
pub open spec fn constant_by_id(s: Seq<ConstantView>, id: i64) -> Option<ConstantView>
    decreases s.len(),
{
    if s.len() == 0 {
        None
    } else if s[0].id == id {
        Some(s[0])
    } else {
        constant_by_id(s.drop_first(), id)
    }
}

/// Constants looked up by id.
#[derive(Debug)]
pub struct ConstantTable {
    pub items: Vec<GrammarConstant>,
}

impl View for ConstantTable {
    type V = Seq<ConstantView>;

    open spec fn view(&self) -> Seq<ConstantView> {
        constant_views(self.items@)
    }
}

impl ConstantTable {
    pub fn new() -> (r: ConstantTable)
        ensures
            r@ == Seq::<ConstantView>::empty(),
    {
        let r = ConstantTable { items: Vec::new() };
        assert(r@ =~= Seq::<ConstantView>::empty());
        r
    }

    /// The constant with the given id.
    pub fn get(&self, id: i64) -> (r: Option<&GrammarConstant>)
        ensures
            match r {
                Some(c) => constant_by_id(self@, id) == Some(c@),
                None => constant_by_id(self@, id) is None,
            },
    {
        let mut i: usize = 0;
        assert(self@.skip(0) =~= self@);
        while i < self.items.len()
            invariant
                i <= self.items@.len(),
                constant_by_id(self@, id) == constant_by_id(self@.skip(i as int), id),
            decreases self.items@.len() - i,
        {
            if self.items[i].id == id {
                return Some(&self.items[i]);
            }
            assert(self@.skip(i as int).drop_first() =~= self@.skip(i + 1));
            i = i + 1;
        }
        None
    }

    /// A copy of this table.
    pub fn duplicate(&self) -> (r: ConstantTable)
        ensures
            r@ == self@,
    {
        let mut items: Vec<GrammarConstant> = Vec::new();
        let mut i: usize = 0;
        while i < self.items.len()
            invariant
                i <= self.items@.len(),
                constant_views(items@) == constant_views(self.items@).take(i as int),
            decreases self.items@.len() - i,
        {
            let ghost before = items@;
            let c = self.items[i].duplicate();
            items.push(c);
            assert(items@ == before.push(c));
            assert(constant_views(items@) =~= constant_views(before).push(c@));
            i = i + 1;
            assert(constant_views(items@) =~= constant_views(self.items@).take(i as int));
        }
        assert(constant_views(self.items@).take(i as int) =~= constant_views(self.items@));
        ConstantTable { items }
    }
}

/// Category names mapped to constant ids.
#[derive(Debug)]
pub struct TagMap {
    pub entries: Vec<(String, i64)>,
}

impl View for TagMap {
    type V = Seq<(Seq<char>, i64)>;

    open spec fn view(&self) -> Seq<(Seq<char>, i64)> {
        self.entries@.map_values(|e: (String, i64)| (e.0@, e.1))
    }
}

impl TagMap {
    /// Whether no category occurs twice.
    pub open spec fn wf(&self) -> bool {
        assoc_keys(self@).no_duplicates()
    }

    pub fn new() -> (r: TagMap)
        ensures
            r@ == Seq::<(Seq<char>, i64)>::empty(),
            r.wf(),
    {
        let r = TagMap { entries: Vec::new() };
        assert(r@ =~= Seq::<(Seq<char>, i64)>::empty());
        r
    }

    /// The id stored for `key`.
    pub fn get(&self, key: &str) -> (r: Option<i64>)
        ensures
            r == assoc_get(self@, key@),
    {
        let mut i: usize = 0;
        assert(self@.skip(0) =~= self@);
        while i < self.entries.len()
            invariant
                i <= self.entries@.len(),
                assoc_get(self@, key@) == assoc_get(self@.skip(i as int), key@),
            decreases self.entries@.len() - i,
        {
            if str_eq(self.entries[i].0.as_str(), key) {
                return Some(self.entries[i].1);
            }
            assert(self@.skip(i as int).drop_first() =~= self@.skip(i + 1));
            i = i + 1;
        }
        None
    }

    /// Binds `key` to `value`, replacing an earlier binding of `key`.
    pub fn insert(&mut self, key: &str, value: i64)
        ensures
            final(self)@ == assoc_put(old(self)@, key@, value),
            old(self).wf() ==> final(self).wf(),
    {
        let ghost start = self@;
        let mut i: usize = 0;
        assert(start.skip(0) =~= start);
        while i < self.entries.len()
            invariant
                i <= self.entries@.len(),
                self@ == start,
                start == old(self)@,
                forall|j: int| 0 <= j < i ==> self@[j].0 != key@,
                assoc_put(start, key@, value) == start.take(i as int) + assoc_put(
                    start.skip(i as int),
                    key@,
                    value,
                ),
            decreases self.entries@.len() - i,
        {
            if str_eq(self.entries[i].0.as_str(), key) {
                let ghost before = self@;
                self.entries.set(i, (crate::text::string_from_str(key), value));
                proof {
                    let t = start.skip(i as int);
                    assert(t[0].0 == key@);
                    assert(assoc_put(t, key@, value) == t.update(0, (key@, value)));
                    assert(self@ =~= start.take(i as int) + t.update(0, (key@, value)));
                    lemma_assoc_put(start, key@, value, key@);
                }
                return;
            }
            proof {
                let t = start.skip(i as int);
                assert(t.drop_first() =~= start.skip(i + 1));
                assert(start.take(i + 1) =~= start.take(i as int) + seq![t[0]]);
                assert(assoc_put(t, key@, value) =~= seq![t[0]] + assoc_put(start.skip(i + 1), key@, value));
            }
            i = i + 1;
        }
        self.entries.push((crate::text::string_from_str(key), value));
        proof {
            assert(start.skip(i as int) =~= Seq::<(Seq<char>, i64)>::empty());
            assert(self@ =~= start.take(i as int) + seq![(key@, value)]);
            lemma_assoc_put(start, key@, value, key@);
        }
    }
}


/// The views of a list of (category, constants) entries.
pub open spec fn attribute_views(s: Seq<(String, Vec<GrammarConstant>)>) -> Seq<(Seq<char>, Seq<ConstantView>)> {
    s.map_values(|e: (String, Vec<GrammarConstant>)| (e.0@, constant_views(e.1@)))
}

/// Constants attached to a lemma as a whole, grouped by category.
#[derive(Debug)]
pub struct LemmaAttributes {
    pub by_category: Vec<(String, Vec<GrammarConstant>)>,
}

impl View for LemmaAttributes {
    type V = Seq<(Seq<char>, Seq<ConstantView>)>;

    open spec fn view(&self) -> Seq<(Seq<char>, Seq<ConstantView>)> {
        attribute_views(self.by_category@)
    }
}

impl LemmaAttributes {
    pub fn new() -> (r: LemmaAttributes)
        ensures
            r@ == Seq::<(Seq<char>, Seq<ConstantView>)>::empty(),
    {
        let r = LemmaAttributes { by_category: Vec::new() };
        assert(r@ =~= Seq::<(Seq<char>, Seq<ConstantView>)>::empty());
        r
    }

    /// The constants recorded for `key`.
    pub fn get(&self, key: &str) -> (r: Option<&Vec<GrammarConstant>>)
        ensures
            match r {
                Some(v) => assoc_get(self@, key@) == Some(constant_views(v@)),
                None => assoc_get(self@, key@) is None,
            },
    {
        let mut i: usize = 0;
        assert(self@.skip(0) =~= self@);
        while i < self.by_category.len()
            invariant
                i <= self.by_category@.len(),
                assoc_get(self@, key@) == assoc_get(self@.skip(i as int), key@),
            decreases self.by_category@.len() - i,
        {
            if str_eq(self.by_category[i].0.as_str(), key) {
                return Some(&self.by_category[i].1);
            }
            assert(self@.skip(i as int).drop_first() =~= self@.skip(i + 1));
            i = i + 1;
        }
        None
    }
}

/// One inflected form together with the constants that describe it.
#[derive(Debug)]
pub struct QuizRow {
    pub inflection_id: i64,
    pub lemma_id: i64,
    pub lemma: String,
    pub form: String,
    pub constant_ids: TagMap,
    pub lemma_attributes: LemmaAttributes,
}

/// The plain contents of a `QuizRow`.
pub struct QuizRowView {
    pub inflection_id: i64,
    pub lemma_id: i64,
    pub lemma: Seq<char>,
    pub form: Seq<char>,
    pub constant_ids: Seq<(Seq<char>, i64)>,
    pub lemma_attributes: Seq<(Seq<char>, Seq<ConstantView>)>,
}

impl View for QuizRow {
    type V = QuizRowView;

    open spec fn view(&self) -> QuizRowView {
        QuizRowView {
            inflection_id: self.inflection_id,
            lemma_id: self.lemma_id,
            lemma: self.lemma@,
            form: self.form@,
            constant_ids: self.constant_ids@,
            lemma_attributes: self.lemma_attributes@,
        }
    }
}

/// The views of a sequence of rows.
pub open spec fn row_views(s: Seq<QuizRow>) -> Seq<QuizRowView> {
    s.map_values(|r: QuizRow| r@)
}

fn duplicate_constants(v: &Vec<GrammarConstant>) -> (r: Vec<GrammarConstant>)
    ensures
        constant_views(r@) == constant_views(v@),
{
    let mut out: Vec<GrammarConstant> = Vec::new();
    let mut i: usize = 0;
    while i < v.len()
        invariant
            i <= v@.len(),
            constant_views(out@) == constant_views(v@).take(i as int),
        decreases v@.len() - i,
    {
        let ghost before = out@;
        let c = v[i].duplicate();
        out.push(c);
        assert(constant_views(out@) =~= constant_views(before).push(c@));
        i = i + 1;
        assert(constant_views(out@) =~= constant_views(v@).take(i as int));
    }
    assert(constant_views(v@).take(i as int) =~= constant_views(v@));
    out
}

impl TagMap {
    /// A copy of this map.
    pub fn duplicate(&self) -> (r: TagMap)
        ensures
            r@ == self@,
    {
        let mut entries: Vec<(String, i64)> = Vec::new();
        let mut i: usize = 0;
        while i < self.entries.len()
            invariant
                i <= self.entries@.len(),
                entries@.map_values(|e: (String, i64)| (e.0@, e.1)) == self@.take(i as int),
            decreases self.entries@.len() - i,
        {
            let ghost before = entries@;
            let e = (self.entries[i].0.clone(), self.entries[i].1);
            entries.push(e);
            assert(entries@.map_values(|e: (String, i64)| (e.0@, e.1)) =~= before.map_values(
                |e: (String, i64)| (e.0@, e.1),
            ).push((e.0@, e.1)));
            i = i + 1;
            assert(entries@.map_values(|e: (String, i64)| (e.0@, e.1)) =~= self@.take(i as int));
        }
        assert(self@.take(i as int) =~= self@);
        TagMap { entries }
    }
}

impl LemmaAttributes {
    /// A copy of these attributes.
    pub fn duplicate(&self) -> (r: LemmaAttributes)
        ensures
            r@ == self@,
    {
        let mut out: Vec<(String, Vec<GrammarConstant>)> = Vec::new();
        let mut i: usize = 0;
        while i < self.by_category.len()
            invariant
                i <= self.by_category@.len(),
                attribute_views(out@) == self@.take(i as int),
            decreases self.by_category@.len() - i,
        {
            let ghost before = out@;
            let e = (self.by_category[i].0.clone(), duplicate_constants(&self.by_category[i].1));
            out.push(e);
            assert(attribute_views(out@) =~= attribute_views(before).push((e.0@, constant_views(e.1@))));
            i = i + 1;
            assert(attribute_views(out@) =~= self@.take(i as int));
        }
        assert(self@.take(i as int) =~= self@);
        LemmaAttributes { by_category: out }
    }
}

impl QuizRow {
    /// A copy of this row.
    pub fn duplicate(&self) -> (r: QuizRow)
        ensures
            r@ == self@,
    {
        QuizRow {
            inflection_id: self.inflection_id,
            lemma_id: self.lemma_id,
            lemma: self.lemma.clone(),
            form: self.form.clone(),
            constant_ids: self.constant_ids.duplicate(),
            lemma_attributes: self.lemma_attributes.duplicate(),
        }
    }
}

/// One filterable category with its options, as shown to the user.
#[derive(Debug)]
pub struct FilterSection {
    pub key: String,
    pub title: String,
    pub options: Vec<GrammarConstant>,
}

/// The plain contents of a `FilterSection`.
pub struct FilterSectionView {
    pub key: Seq<char>,
    pub title: Seq<char>,
    pub options: Seq<ConstantView>,
}

impl View for FilterSection {
    type V = FilterSectionView;

    open spec fn view(&self) -> FilterSectionView {
        FilterSectionView { key: self.key@, title: self.title@, options: constant_views(self.options@) }
    }
}

/// The views of a sequence of sections.
pub open spec fn section_views(s: Seq<FilterSection>) -> Seq<FilterSectionView> {
    s.map_values(|x: FilterSection| x@)
}

impl FilterSection {
    /// A copy of this section.
    pub fn duplicate(&self) -> (r: FilterSection)
        ensures
            r@ == self@,
    {
        FilterSection { key: self.key.clone(), title: self.title.clone(), options: duplicate_constants(&self.options) }
    }
}

/// A lemma that can be picked in the lemma filter.
#[derive(Debug)]
pub struct LemmaOption {
    pub id: i64,
    pub label: String,
}

impl View for LemmaOption {
    type V = (i64, Seq<char>);

    open spec fn view(&self) -> (i64, Seq<char>) {
        (self.id, self.label@)
    }
}

/// The views of the selected constants of each category.
pub open spec fn selection_views(s: Seq<(String, BTreeSet<i64>)>) -> Seq<(Seq<char>, Set<i64>)> {
    s.map_values(|e: (String, BTreeSet<i64>)| (e.0@, e.1@))
}

/// A set with `x` added when it was absent and removed when it was present.
pub open spec fn toggled(s: Set<i64>, x: i64) -> Set<i64> {
    if s.contains(x) {
        s.remove(x)
    } else {
        s.insert(x)
    }
}

/// The selection after toggling constant `x` of `category`: a category whose
/// set becomes empty is dropped.
pub open spec fn selection_toggled(
    s: Seq<(Seq<char>, Set<i64>)>,
    category: Seq<char>,
    x: i64,
) -> Seq<(Seq<char>, Set<i64>)> {
    match assoc_index(s, category) {
        Some(i) => {
            let t = toggled(s[i].1, x);
            if t.is_empty() {
                s.remove(i)
            } else {
                s.update(i, (category, t))
            }
        },
        None => s.push((category, set![x])),
    }
}

/// No category occurs twice and none has an empty selection.
pub open spec fn selection_wf(s: Seq<(Seq<char>, Set<i64>)>) -> bool {
    &&& assoc_keys(s).no_duplicates()
    &&& forall|i: int| 0 <= i < s.len() ==> !(#[trigger] s[i]).1.is_empty()
}

/// Whether constant `x` is selected in category `c`.
pub open spec fn selected_in(s: Seq<(Seq<char>, Set<i64>)>, c: Seq<char>, x: i64) -> bool {
    assoc_get(s, c) matches Some(set) && set.contains(x)
}

pub proof fn lemma_assoc_get_at<V>(s: Seq<(Seq<char>, V)>, d: Seq<char>, j: int)
    requires
        assoc_keys(s).no_duplicates(),
        0 <= j < s.len(),
        s[j].0 == d,
    ensures
        assoc_get(s, d) == Some(s[j].1),
{
    lemma_assoc_index(s, d);
    if let Some(i) = assoc_index(s, d) {
        if i != j {
            assert(assoc_keys(s)[i] == assoc_keys(s)[j]);
        }
    }
}

pub proof fn lemma_assoc_get_none<V>(s: Seq<(Seq<char>, V)>, d: Seq<char>)
    requires
        forall|j: int| 0 <= j < s.len() ==> s[j].0 != d,
    ensures
        assoc_get(s, d) is None,
{
    lemma_assoc_index(s, d);
}

/// With distinct keys, the value of a key is that of the entry that has it.
pub proof fn lemma_assoc_get_unique<V>(s: Seq<(Seq<char>, V)>, d: Seq<char>)
    requires
        assoc_keys(s).no_duplicates(),
    ensures
        assoc_get(s, d) matches Some(v) ==> exists|j: int| 0 <= j < s.len() && s[j] == (d, v),
        assoc_get(s, d) is None ==> forall|j: int| 0 <= j < s.len() ==> s[j].0 != d,
{
    lemma_assoc_index(s, d);
    if let Some(i) = assoc_index(s, d) {
        assert(s[i] == (d, s[i].1));
    }
}

proof fn lemma_toggled_get<V>(
    s: Seq<(Seq<char>, Set<i64>)>,
    c: Seq<char>,
    x: i64,
    d: Seq<char>,
)
    requires
        selection_wf(s),
    ensures
        selection_wf(selection_toggled(s, c, x)),
        d != c ==> assoc_get(selection_toggled(s, c, x), d) == assoc_get(s, d),
        assoc_get(selection_toggled(s, c, x), c) == (match assoc_get(s, c) {
            Some(set) => if toggled(set, x).is_empty() {
                None
            } else {
                Some(toggled(set, x))
            },
            None => Some(set![x]),
        }),
{
    let t = selection_toggled(s, c, x);
    let ks = assoc_keys(s);
    lemma_assoc_index(s, c);
    match assoc_index(s, c) {
        Some(i) => {
            let u = toggled(s[i].1, x);
            if u.is_empty() {
                assert(t == s.remove(i));
                assert(assoc_keys(t) =~= ks.remove(i));
                assert forall|a: int, b: int| 0 <= a < assoc_keys(t).len() && 0 <= b < assoc_keys(t).len() && a != b implies assoc_keys(t)[a] != assoc_keys(t)[b] by {
                    let a2 = if a < i { a } else { a + 1 };
                    let b2 = if b < i { b } else { b + 1 };
                    assert(assoc_keys(t)[a] == ks[a2]);
                    assert(assoc_keys(t)[b] == ks[b2]);
                }
                assert forall|k: int| 0 <= k < t.len() implies !(#[trigger] t[k]).1.is_empty() by {
                    if k < i {
                        assert(t[k] == s[k]);
                    } else {
                        assert(t[k] == s[k + 1]);
                    }
                }
                assert forall|k: int| 0 <= k < t.len() implies t[k].0 != c by {
                    if k < i {
                        assert(t[k] == s[k]);
                        assert(ks[k] != ks[i]);
                    } else {
                        assert(t[k] == s[k + 1]);
                        assert(ks[k + 1] != ks[i]);
                    }
                }
                lemma_assoc_get_none(t, c);
                if d != c {
                    lemma_assoc_get_unique(s, d);
                    lemma_assoc_get_unique(t, d);
                    if let Some(v) = assoc_get(s, d) {
                        let j = choose|j: int| 0 <= j < s.len() && s[j] == (d, v);
                        assert(j != i);
                        let j2 = if j < i { j } else { j - 1 };
                        assert(t[j2] == s[j]);
                        lemma_assoc_get_at(t, d, j2);
                    } else {
                        assert forall|k: int| 0 <= k < t.len() implies t[k].0 != d by {
                            if k < i {
                                assert(t[k] == s[k]);
                            } else {
                                assert(t[k] == s[k + 1]);
                            }
                        }
                        lemma_assoc_get_none(t, d);
                    }
                }
            } else {
                assert(t == s.update(i, (c, u)));
                assert(assoc_keys(t) =~= ks);
                assert forall|k: int| 0 <= k < t.len() implies !(#[trigger] t[k]).1.is_empty() by {
                    if k != i {
                        assert(t[k] == s[k]);
                    }
                }
                lemma_assoc_get_at(t, c, i);
                if d != c {
                    lemma_assoc_get_unique(s, d);
                    if let Some(v) = assoc_get(s, d) {
                        let j = choose|j: int| 0 <= j < s.len() && s[j] == (d, v);
                        assert(t[j] == s[j]);
                        lemma_assoc_get_at(t, d, j);
                    } else {
                        assert forall|k: int| 0 <= k < t.len() implies t[k].0 != d by {
                            if k != i {
                                assert(t[k] == s[k]);
                            }
                        }
                        lemma_assoc_get_none(t, d);
                    }
                }
            }
        },
        None => {
            assert(t == s.push((c, set![x])));
            assert(assoc_keys(t) =~= ks.push(c));
            assert forall|a: int, b: int| 0 <= a < assoc_keys(t).len() && 0 <= b < assoc_keys(t).len() && a != b implies assoc_keys(t)[a] != assoc_keys(t)[b] by {
                if a < s.len() && b < s.len() {
                    assert(assoc_keys(t)[a] == ks[a] && assoc_keys(t)[b] == ks[b]);
                } else if a < s.len() {
                    assert(assoc_keys(t)[a] == s[a].0);
                } else if b < s.len() {
                    assert(assoc_keys(t)[b] == s[b].0);
                }
            }
            assert forall|k: int| 0 <= k < t.len() implies !(#[trigger] t[k]).1.is_empty() by {
                if k < s.len() {
                    assert(t[k] == s[k]);
                } else {
                    assert(t[k].1.contains(x));
                }
            }
            lemma_assoc_get_at(t, c, s.len() as int);
            if d != c {
                lemma_assoc_get_unique(s, d);
                if let Some(v) = assoc_get(s, d) {
                    let j = choose|j: int| 0 <= j < s.len() && s[j] == (d, v);
                    assert(t[j] == s[j]);
                    lemma_assoc_get_at(t, d, j);
                } else {
                    assert forall|k: int| 0 <= k < t.len() implies t[k].0 != d by {
                        if k < s.len() {
                            assert(t[k] == s[k]);
                        }
                    }
                    lemma_assoc_get_none(t, d);
                }
            }
        },
    }
}

/// Toggling a constant flips whether exactly that constant is selected:
/// every other constant keeps its state, and the selection stays free of
/// repeated categories and of empty selections.
pub proof fn law_toggle_constant(s: Seq<(Seq<char>, Set<i64>)>, c: Seq<char>, x: i64, d: Seq<char>, y: i64)
    requires
        selection_wf(s),
    ensures
        selection_wf(selection_toggled(s, c, x)),
        selected_in(selection_toggled(s, c, x), c, x) == !selected_in(s, c, x),
        (d != c || y != x) ==> selected_in(selection_toggled(s, c, x), d, y) == selected_in(s, d, y),
{
    lemma_toggled_get::<Set<i64>>(s, c, x, d);
    match assoc_get(s, c) {
        Some(set) => {
            let u = toggled(set, x);
            assert(u.contains(x) == !set.contains(x));
            assert(y != x ==> u.contains(y) == set.contains(y));
            if u.is_empty() {
                assert(!u.contains(x));
                assert(!u.contains(y));
            }
        },
        None => {
            assert(set![x].contains(x));
            assert(y != x ==> !set![x].contains(y));
        },
    }
}

/// Toggling the same constant twice leaves every category's selection as it was.
pub proof fn law_toggle_constant_twice(s: Seq<(Seq<char>, Set<i64>)>, c: Seq<char>, x: i64, d: Seq<char>)
    requires
        selection_wf(s),
    ensures
        assoc_get(selection_toggled(selection_toggled(s, c, x), c, x), d) == assoc_get(s, d),
{
    let t = selection_toggled(s, c, x);
    lemma_toggled_get::<Set<i64>>(s, c, x, d);
    lemma_toggled_get::<Set<i64>>(t, c, x, d);
    if d == c {
        lemma_assoc_get_unique(s, c);
        match assoc_get(s, c) {
            Some(set) => {
                let j = choose|j: int| 0 <= j < s.len() && s[j] == (c, set);
                assert(!s[j].1.is_empty());
                if set.contains(x) {
                    if toggled(set, x).is_empty() {
                        assert(set =~= set![x]) by {
                            assert forall|z: i64| set.contains(z) implies z == x by {
                                if z != x {
                                    assert(toggled(set, x).contains(z));
                                }
                            }
                        }
                    } else {
                        assert(toggled(toggled(set, x), x) =~= set);
                    }
                } else {
                    assert(toggled(toggled(set, x), x) =~= set);
                }
            },
            None => {
                assert(toggled(set![x], x) =~= Set::<i64>::empty());
            },
        }
    }
}

/// Toggling the same lemma twice leaves the lemma selection as it was.
pub proof fn law_toggle_lemma_twice(s: Set<i64>, x: i64)
    ensures
        toggled(toggled(s, x), x) == s,
{
    assert(toggled(toggled(s, x), x) =~= s);
}

/// The plain contents of a filter: the selected constants of each category
/// and the selected lemmas.
pub struct FilterModel {
    pub selection: Seq<(Seq<char>, Set<i64>)>,
    pub lemma_ids: Set<i64>,
}

/// The filters that the user has chosen. No category occurs twice and none
/// has an empty selection: the fields are private and every way of making or
/// changing a filter keeps it so.
#[derive(Debug)]
pub struct FilterState {
    selected_constants: Vec<(String, BTreeSet<i64>)>,
    selected_lemma_ids: BTreeSet<i64>,
}

/// Whether the entries hold no category twice and no empty selection.
fn entries_wf(entries: &Vec<(String, BTreeSet<i64>)>) -> (r: bool)
    ensures
        r == selection_wf(selection_views(entries@)),
{
    let ghost s = selection_views(entries@);
    let n = entries.len();
    let mut i: usize = 0;
    while i < n
        invariant
            n == entries@.len(),
            s == selection_views(entries@),
            s.len() == n,
            i <= n,
            forall|k: int| 0 <= k < i ==> !(#[trigger] s[k]).1.is_empty(),
            forall|a: int, b: int| 0 <= a < i && 0 <= b < n && a != b ==> (#[trigger] s[a]).0 != (#[trigger] s[b]).0,
        decreases n - i,
    {
        assert(s[i as int] == (entries@[i as int].0@, entries@[i as int].1@));
        if entries[i].1.is_empty() {
            assert(s[i as int].1.is_empty());
            return false;
        }
        let mut j: usize = 0;
        while j < n
            invariant
                n == entries@.len(),
                s == selection_views(entries@),
                s.len() == n,
                i < n,
                j <= n,
                forall|b: int| 0 <= b < j && b != i ==> s[i as int].0 != (#[trigger] s[b]).0,
            decreases n - j,
        {
            assert(s[j as int] == (entries@[j as int].0@, entries@[j as int].1@));
            if j != i && str_eq(entries[i].0.as_str(), entries[j].0.as_str()) {
                assert(assoc_keys(s)[i as int] == assoc_keys(s)[j as int]);
                return false;
            }
            j = j + 1;
        }
        proof {
            assert forall|a: int, b: int| 0 <= a < i + 1 && 0 <= b < n && a != b implies (#[trigger] s[a]).0 != (#[trigger] s[b]).0 by {
                if a == i {
                } else if b == i {
                    assert(s[a].0 != s[b].0);
                }
            }
        }
        i = i + 1;
    }
    proof {
        let ks = assoc_keys(s);
        assert forall|a: int, b: int| 0 <= a < ks.len() && 0 <= b < ks.len() && a != b implies ks[a] != ks[b] by {
            assert(ks[a] == s[a].0 && ks[b] == s[b].0);
        }
    }
    true
}

impl FilterState {
    #[verifier::type_invariant]
    spec fn inv(self) -> bool {
        selection_wf(selection_views(self.selected_constants@))
    }

    /// The selected constants of each category.
    pub closed spec fn selection(&self) -> Seq<(Seq<char>, Set<i64>)> {
        selection_views(self.selected_constants@)
    }

    /// The selected lemmas.
    pub closed spec fn lemma_ids(&self) -> Set<i64> {
        self.selected_lemma_ids@
    }

    /// The plain contents of the filter.
    pub open spec fn model(&self) -> FilterModel {
        FilterModel { selection: self.selection(), lemma_ids: self.lemma_ids() }
    }

    /// No category occurs twice and none has an empty selection.
    pub open spec fn wf(&self) -> bool {
        selection_wf(self.selection())
    }

    /// An empty filter.
    pub fn new() -> (r: FilterState)
        ensures
            r.selection() == Seq::<(Seq<char>, Set<i64>)>::empty(),
            r.lemma_ids() == Set::<i64>::empty(),
            r.wf(),
    {
        let e: Vec<(String, BTreeSet<i64>)> = Vec::new();
        assert(selection_views(e@) =~= Seq::<(Seq<char>, Set<i64>)>::empty());
        assert(assoc_keys(selection_views(e@)) =~= Seq::<Seq<char>>::empty());
        FilterState { selected_constants: e, selected_lemma_ids: BTreeSet::new() }
    }

    /// The filter of these entries and lemmas, when no category occurs twice
    /// and none has an empty selection; `None` otherwise.
    pub fn from_entries(entries: Vec<(String, BTreeSet<i64>)>, lemma_ids: BTreeSet<i64>) -> (r: Option<FilterState>)
        ensures
            r is Some <==> selection_wf(selection_views(entries@)),
            r matches Some(f) ==> f.selection() == selection_views(entries@) && f.lemma_ids() == lemma_ids@,
    {
        if entries_wf(&entries) {
            Some(FilterState { selected_constants: entries, selected_lemma_ids: lemma_ids })
        } else {
            None
        }
    }

    /// The selected constants of each category, in the filter's order.
    pub fn selected_constants(&self) -> (r: &Vec<(String, BTreeSet<i64>)>)
        ensures
            selection_views(r@) == self.selection(),
            self.wf(),
    {
        proof {
            use_type_invariant(self);
        }
        &self.selected_constants
    }

    /// The selected lemmas.
    pub fn selected_lemma_ids(&self) -> (r: &BTreeSet<i64>)
        ensures
            r@ == self.lemma_ids(),
    {
        &self.selected_lemma_ids
    }

    /// A copy of these filters.
    pub fn duplicate(&self) -> (r: FilterState)
        ensures
            r.model() == self.model(),
    {
        proof {
            use_type_invariant(self);
        }
        let mut entries: Vec<(String, BTreeSet<i64>)> = Vec::new();
        let mut i: usize = 0;
        while i < self.selected_constants.len()
            invariant
                i <= self.selected_constants@.len(),
                selection_views(entries@) == self.selection().take(i as int),
            decreases self.selected_constants@.len() - i,
        {
            let ghost before = selection_views(entries@);
            let e = (self.selected_constants[i].0.clone(), self.selected_constants[i].1.clone());
            entries.push(e);
            assert(selection_views(entries@) =~= before.push((e.0@, e.1@)));
            i = i + 1;
            assert(selection_views(entries@) =~= self.selection().take(i as int));
        }
        assert(self.selection().take(i as int) =~= self.selection());
        FilterState { selected_constants: entries, selected_lemma_ids: self.selected_lemma_ids.clone() }
    }

    /// Selects the lemma when it is not selected, unselects it otherwise.
    pub fn toggle_lemma(&mut self, lemma_id: i64)
        ensures
            final(self).lemma_ids() == toggled(old(self).lemma_ids(), lemma_id),
            final(self).selection() == old(self).selection(),
    {
        proof {
            use_type_invariant(&*self);
        }
        let mut ids = self.selected_lemma_ids.clone();
        if ids.contains(&lemma_id) {
            ids.remove(&lemma_id);
        } else {
            ids.insert(lemma_id);
        }
        self.selected_lemma_ids = ids;
    }

    /// Selects the constant when it is not selected, unselects it otherwise;
    /// a category left with nothing selected is dropped. Toggling the same
    /// constant again gives every category its selection as before.
    pub fn toggle_constant(&mut self, category: &str, constant_id: i64)
        ensures
            final(self).selection() == selection_toggled(old(self).selection(), category@, constant_id),
            final(self).lemma_ids() == old(self).lemma_ids(),
            final(self).wf(),
            forall|d: Seq<char>|
                assoc_get(selection_toggled(final(self).selection(), category@, constant_id), d) == #[trigger] assoc_get(
                    old(self).selection(),
                    d,
                ),
    {
        proof {
            use_type_invariant(&*self);
        }
        let ghost start = self.selection();
        proof {
            lemma_toggled_get::<Set<i64>>(start, category@, constant_id, category@);
            assert forall|d: Seq<char>|
                assoc_get(selection_toggled(selection_toggled(start, category@, constant_id), category@, constant_id), d)
                    == #[trigger] assoc_get(start, d) by {
                law_toggle_constant_twice(start, category@, constant_id, d);
            }
        }
        let mut entries: Vec<(String, BTreeSet<i64>)> = Vec::new();
        std::mem::swap(&mut entries, &mut self.selected_constants);
        assert(selection_views(entries@) == start);
        let mut i: usize = 0;
        let n = entries.len();
        let mut found = false;
        while i < n
            invariant_except_break
                n == entries@.len(),
                i <= n,
                selection_views(entries@) == start,
                forall|j: int| 0 <= j < i ==> start[j].0 != category@,
                !found,
            ensures
                found ==> selection_views(entries@) == selection_toggled(start, category@, constant_id),
                !found ==> selection_views(entries@) == start && forall|j: int| 0 <= j < start.len() ==> start[j].0 != category@,
            decreases n - i,
        {
            if str_eq(entries[i].0.as_str(), category) {
                proof {
                    lemma_assoc_index_at(start, category@, i as int);
                }
                let mut set = entries[i].1.clone();
                if set.contains(&constant_id) {
                    set.remove(&constant_id);
                } else {
                    set.insert(constant_id);
                }
                if set.is_empty() {
                    entries.remove(i);
                    assert(selection_views(entries@) =~= start.remove(i as int));
                } else {
                    let name = entries[i].0.clone();
                    entries.set(i, (name, set));
                    assert(selection_views(entries@) =~= start.update(i as int, (category@, toggled(start[i as int].1, constant_id))));
                }
                found = true;
                break;
            }
            i = i + 1;
        }
        if !found {
            proof {
                lemma_assoc_index(start, category@);
                if let Some(j) = assoc_index(start, category@) {
                    assert(start[j].0 == category@);
                }
            }
            let mut set: BTreeSet<i64> = BTreeSet::new();
            set.insert(constant_id);
            let ghost before = entries@;
            entries.push((crate::text::string_from_str(category), set));
            assert(selection_views(entries@) =~= start.push((category@, set![constant_id])));
        }
        self.selected_constants = entries;
    }

    /// Whether the constant is selected in `category`.
    pub fn is_selected(&self, category: &str, constant_id: i64) -> (r: bool)
        ensures
            r == (assoc_get(self.selection(), category@) matches Some(s) && s.contains(constant_id)),
    {
        let mut i: usize = 0;
        assert(self.selection().skip(0) =~= self.selection());
        while i < self.selected_constants.len()
            invariant
                i <= self.selected_constants@.len(),
                assoc_get(self.selection(), category@) == assoc_get(self.selection().skip(i as int), category@),
            decreases self.selected_constants@.len() - i,
        {
            if str_eq(self.selected_constants[i].0.as_str(), category) {
                return self.selected_constants[i].1.contains(&constant_id);
            }
            assert(self.selection().skip(i as int).drop_first() =~= self.selection().skip(i + 1));
            i = i + 1;
        }
        false
    }
}

pub proof fn lemma_assoc_index_at<V>(s: Seq<(Seq<char>, V)>, key: Seq<char>, i: int)
    requires
        0 <= i < s.len(),
        s[i].0 == key,
        forall|j: int| 0 <= j < i ==> s[j].0 != key,
    ensures
        assoc_index(s, key) == Some(i),
        assoc_get(s, key) == Some(s[i].1),
    decreases i,
{
    if i > 0 {
        lemma_assoc_index_at(s.drop_first(), key, i - 1);
    }
}


/// What a question asks for.
#[derive(Clone, Copy, Debug, PartialEq, Eq)]
pub enum QuizMode {
    ParseForm,
    BuildForm,
    InferForm,
}

impl QuizMode {
    /// The text that names the mode.
    pub fn label(self) -> (r: &'static str)
        ensures
            r@ == match self {
                QuizMode::ParseForm => "Form -> analysis"@,
                QuizMode::BuildForm => "Analysis -> form"@,
                QuizMode::InferForm => "Form -> typed form"@,
            },
    {
        match self {
            QuizMode::ParseForm => "Form -> analysis",
            QuizMode::BuildForm => "Analysis -> form",
            QuizMode::InferForm => "Form -> typed form",
        }
    }
}

/// One choice of a multiple-choice question.
#[derive(Debug)]
pub struct AnswerOption {
    pub id: String,
    pub label: String,
}

/// A question with its options, the accepted answers and the user's answer.
#[derive(Debug)]
pub struct Question {
    pub lemma_id: i64,
    pub mode: QuizMode,
    pub prompt: String,
    pub clue: Option<String>,
    pub options: Vec<AnswerOption>,
    pub correct_option_ids: Vec<String>,
    pub selected_option_id: Option<String>,
    pub accepted_text_answers: Vec<String>,
    pub text_entry: String,
    pub submitted_text: Option<String>,
}

/// The plain contents of a `Question`; options are (id, label) pairs.
pub struct QuestionView {
    pub lemma_id: i64,
    pub mode: QuizMode,
    pub prompt: Seq<char>,
    pub clue: Option<Seq<char>>,
    pub options: Seq<(Seq<char>, Seq<char>)>,
    pub correct_option_ids: Seq<Seq<char>>,
    pub selected_option_id: Option<Seq<char>>,
    pub accepted_text_answers: Seq<Seq<char>>,
    pub text_entry: Seq<char>,
    pub submitted_text: Option<Seq<char>>,
}

/// The view of an optional string.
pub open spec fn opt_view(s: Option<String>) -> Option<Seq<char>> {
    match s {
        Some(x) => Some(x@),
        None => None,
    }
}

/// The (id, label) views of some options.
pub open spec fn option_views(s: Seq<AnswerOption>) -> Seq<(Seq<char>, Seq<char>)> {
    s.map_values(|o: AnswerOption| (o.id@, o.label@))
}

impl View for Question {
    type V = QuestionView;

    open spec fn view(&self) -> QuestionView {
        QuestionView {
            lemma_id: self.lemma_id,
            mode: self.mode,
            prompt: self.prompt@,
            clue: opt_view(self.clue),
            options: option_views(self.options@),
            correct_option_ids: self.correct_option_ids.deep_view(),
            selected_option_id: opt_view(self.selected_option_id),
            accepted_text_answers: self.accepted_text_answers.deep_view(),
            text_entry: self.text_entry@,
            submitted_text: opt_view(self.submitted_text),
        }
    }
}

impl Question {
    /// Whether an option was chosen or a text answer submitted.
    pub fn is_answered(&self) -> (r: bool)
        ensures
            r == (self.selected_option_id is Some || self.submitted_text is Some),
    {
        self.selected_option_id.is_some() || self.submitted_text.is_some()
    }

    /// Whether `option_id` names a correct option.
    pub fn is_correct(&self, option_id: &str) -> (r: bool)
        ensures
            r == self.correct_option_ids.deep_view().contains(option_id@),
    {
        let mut i: usize = 0;
        while i < self.correct_option_ids.len()
            invariant
                i <= self.correct_option_ids@.len(),
                forall|j: int| 0 <= j < i ==> self.correct_option_ids.deep_view()[j] != option_id@,
            decreases self.correct_option_ids@.len() - i,
        {
            if str_eq(self.correct_option_ids[i].as_str(), option_id) {
                assert(self.correct_option_ids.deep_view()[i as int] == option_id@);
                return true;
            }
            i = i + 1;
        }
        false
    }

    /// Whether the question is answered by typing.
    pub fn uses_text_entry(&self) -> (r: bool)
        ensures
            r == (self.accepted_text_answers@.len() > 0),
    {
        !self.accepted_text_answers.is_empty()
    }
}

/// One row of a paradigm table as displayed.
#[derive(Debug)]
pub struct StemTableRow {
    pub label: String,
    pub cells: Vec<String>,
}

/// One paradigm table as displayed.
#[derive(Debug)]
pub struct StemTable {
    pub heading: Vec<String>,
    pub columns: Vec<String>,
    pub rows: Vec<StemTableRow>,
}

/// All the tables of one lemma, as displayed.
#[derive(Debug)]
pub struct StemView {
    pub lemma: String,
    pub stemtypes: Vec<String>,
    pub common_tags: Vec<String>,
    pub tables: Vec<StemTable>,
}

fn duplicate_strings(v: &Vec<String>) -> (r: Vec<String>)
    ensures
        r.deep_view() == v.deep_view(),
{
    let mut out: Vec<String> = Vec::new();
    let mut i: usize = 0;
    while i < v.len()
        invariant
            i <= v@.len(),
            out.deep_view() == v.deep_view().take(i as int),
        decreases v@.len() - i,
    {
        let ghost before = out.deep_view();
        let c = v[i].clone();
        out.push(c);
        assert(out.deep_view() =~= before.push(c@));
        i = i + 1;
        assert(out.deep_view() =~= v.deep_view().take(i as int));
    }
    assert(v.deep_view().take(i as int) =~= v.deep_view());
    out
}

/// The plain contents of a displayed row.
pub open spec fn stem_row_view(r: StemTableRow) -> (Seq<char>, Seq<Seq<char>>) {
    (r.label@, r.cells.deep_view())
}

/// The plain contents of a displayed table.
pub open spec fn stem_table_view(t: StemTable) -> (Seq<Seq<char>>, Seq<Seq<char>>, Seq<(Seq<char>, Seq<Seq<char>>)>) {
    (t.heading.deep_view(), t.columns.deep_view(), t.rows@.map_values(|r: StemTableRow| stem_row_view(r)))
}

/// The plain contents of a displayed paradigm.
pub open spec fn stem_view_view(v: StemView) -> (Seq<char>, Seq<Seq<char>>, Seq<Seq<char>>, Seq<(Seq<Seq<char>>, Seq<Seq<char>>, Seq<(Seq<char>, Seq<Seq<char>>)>)>) {
    (v.lemma@, v.stemtypes.deep_view(), v.common_tags.deep_view(), v.tables@.map_values(|t: StemTable| stem_table_view(t)))
}

impl StemView {
    /// A copy of this view.
    pub fn duplicate(&self) -> (r: StemView)
        ensures
            stem_view_view(r) == stem_view_view(*self),
    {
        let mut tables: Vec<StemTable> = Vec::new();
        let mut i: usize = 0;
        while i < self.tables.len()
            invariant
                i <= self.tables@.len(),
                tables@.map_values(|t: StemTable| stem_table_view(t)) == self.tables@.map_values(|t: StemTable| stem_table_view(t)).take(i as int),
            decreases self.tables@.len() - i,
        {
            let t = &self.tables[i];
            let mut rows: Vec<StemTableRow> = Vec::new();
            let mut k: usize = 0;
            while k < t.rows.len()
                invariant
                    k <= t.rows@.len(),
                    rows@.map_values(|r: StemTableRow| stem_row_view(r)) == t.rows@.map_values(|r: StemTableRow| stem_row_view(r)).take(k as int),
                decreases t.rows@.len() - k,
            {
                let ghost before = rows@;
                let row = StemTableRow { label: t.rows[k].label.clone(), cells: duplicate_strings(&t.rows[k].cells) };
                rows.push(row);
                assert(rows@.map_values(|r: StemTableRow| stem_row_view(r)) =~= before.map_values(|r: StemTableRow| stem_row_view(r)).push(stem_row_view(row)));
                k = k + 1;
                assert(rows@.map_values(|r: StemTableRow| stem_row_view(r)) =~= t.rows@.map_values(|r: StemTableRow| stem_row_view(r)).take(k as int));
            }
            assert(t.rows@.map_values(|r: StemTableRow| stem_row_view(r)).take(k as int) =~= t.rows@.map_values(|r: StemTableRow| stem_row_view(r)));
            let table = StemTable { heading: duplicate_strings(&t.heading), columns: duplicate_strings(&t.columns), rows };
            let ghost before_t = tables@;
            tables.push(table);
            assert(tables@.map_values(|t: StemTable| stem_table_view(t)) =~= before_t.map_values(|t: StemTable| stem_table_view(t)).push(stem_table_view(table)));
            i = i + 1;
            assert(tables@.map_values(|t: StemTable| stem_table_view(t)) =~= self.tables@.map_values(|t: StemTable| stem_table_view(t)).take(i as int));
        }
        assert(self.tables@.map_values(|t: StemTable| stem_table_view(t)).take(i as int) =~= self.tables@.map_values(|t: StemTable| stem_table_view(t)));
        StemView {
            lemma: self.lemma.clone(),
            stemtypes: duplicate_strings(&self.stemtypes),
            common_tags: duplicate_strings(&self.common_tags),
            tables,
        }
    }
}

/// Counts kept over a session of answers.
#[derive(Clone, Copy, Debug)]
pub struct SessionStats {
    pub answered: usize,
    pub correct: usize,
    pub streak: usize,
    pub best_streak: usize,
}

impl SessionStats {
    /// No answers yet.
    pub fn new() -> (r: SessionStats)
        ensures
            r.answered == 0 && r.correct == 0 && r.streak == 0 && r.best_streak == 0,
    {
        SessionStats { answered: 0, correct: 0, streak: 0, best_streak: 0 }
    }

    /// The counts agree with each other: no more correct answers than answers,
    /// and no streak longer than the correct answers or than the best streak.
    pub open spec fn consistent(&self) -> bool {
        &&& self.correct <= self.answered
        &&& self.streak <= self.correct
        &&& self.streak <= self.best_streak
        &&& self.best_streak <= self.correct
    }

    /// Counts one more answer.
    pub fn register(&mut self, was_correct: bool)
        requires
            old(self).answered < usize::MAX,
            was_correct ==> old(self).correct < usize::MAX && old(self).streak < usize::MAX,
        ensures
            final(self).answered == old(self).answered + 1,
            final(self).correct == old(self).correct + if was_correct { 1int } else { 0int },
            final(self).streak == if was_correct { old(self).streak + 1 } else { 0 },
            final(self).best_streak == if was_correct && old(self).streak + 1 > old(self).best_streak {
                old(self).streak + 1
            } else {
                old(self).best_streak as int
            },
            old(self).consistent() ==> final(self).consistent(),
    {
        self.answered += 1;
        if was_correct {
            self.correct += 1;
            self.streak += 1;
            if self.streak > self.best_streak {
                self.best_streak = self.streak;
            }
        } else {
            self.streak = 0;
        }
    }

    /// The share of correct answers in percent, rounded down; 0 before any answer.
    pub fn accuracy(&self) -> (r: usize)
        requires
            self.correct * 100 <= usize::MAX,
        ensures
            r == if self.answered == 0 { 0 } else { (self.correct * 100) / (self.answered as int) },
            self.consistent() ==> r <= 100,
    {
        if self.answered == 0 {
            return 0;
        }
        let r = (self.correct * 100) / self.answered;
        proof {
            if self.consistent() {
                assert((self.correct * 100) / (self.answered as int) <= 100) by (nonlinear_arith)
                    requires
                        self.correct <= self.answered,
                        self.answered > 0,
                ;
            }
        }
        r
    }
}

} // verus!
