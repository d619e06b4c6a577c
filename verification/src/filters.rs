//! Filtering quiz rows by the user's selection, and the filter sections that
//! are offered: one per category, with its constants in display order.
use vstd::prelude::*;

use crate::models::{
    assoc_get, assoc_keys, constant_views, section_views, selection_views, ConstantTable, ConstantView, FilterSection,
    FilterSectionView, FilterState, GrammarConstant, QuizRow, QuizRowView,
};
use crate::quiz::{lex_le, lex_le_chars};
use crate::tags::{category_rank, category_rank_of, title_case_identifier, title_of_identifier};
use crate::text::{chars_of, str_eq, to_lowercase, unicode_lowercase};

verus! {

broadcast use vstd::std_specs::btree::group_btree_axioms, vstd::laws_cmp::group_laws_cmp;

// ---------------------------------------------------------------------------
// Matching rows against a selection
// ---------------------------------------------------------------------------

/// Whether the row passes the selection of one category: an empty selection
/// and the excluded category pass everything, otherwise the row's constant
/// of that category must be selected.
pub open spec fn selection_admits(
    row: QuizRowView,
    category: Seq<char>,
    selected: Set<i64>,
    excluded: Option<Seq<char>>,
) -> bool {
    ||| selected.is_empty()
    ||| excluded == Some(category)
    ||| (assoc_get(row.constant_ids, category) matches Some(v) && selected.contains(v))
}

/// Whether the row passes the lemma selection (unless it is ignored) and the
/// selection of every category.
pub open spec fn row_matches(
    row: QuizRowView,
    selection: Seq<(Seq<char>, Set<i64>)>,
    lemma_ids: Set<i64>,
    excluded: Option<Seq<char>>,
    exclude_selected_lemma: bool,
) -> bool {
    &&& (exclude_selected_lemma || lemma_ids.is_empty() || lemma_ids.contains(row.lemma_id))
    &&& forall|i: int| 0 <= i < selection.len() ==> #[trigger] selection_admits(row, selection[i].0, selection[i].1, excluded)
}

fn opt_str_eq(excluded: Option<&str>, category: &str) -> (r: bool)
    ensures
        r == (match excluded {
            Some(e) => e@ == category@,
            None => false,
        }),
{
    match excluded {
        Some(e) => str_eq(e, category),
        None => false,
    }
}

/// Whether the row passes the filters. The lemma selection is ignored when
/// `exclude_selected_lemma` holds, the selection of `excluded_category` is
/// ignored, and an empty selection lets every row through.
pub fn matches_filters(
    row: &QuizRow,
    filters: &FilterState,
    excluded_category: Option<&str>,
    exclude_selected_lemma: bool,
) -> (r: bool)
    ensures
        r == row_matches(
            row@,
            filters.selection(),
            filters.lemma_ids(),
            match excluded_category {
                Some(e) => Some(e@),
                None => None,
            },
            exclude_selected_lemma,
        ),
{
    let ghost excluded = match excluded_category {
        Some(e) => Some(e@),
        None => None::<Seq<char>>,
    };
    let lemma_ids = filters.selected_lemma_ids();
    let entries = filters.selected_constants();
    if !exclude_selected_lemma {
        if !lemma_ids.is_empty() {
            if !lemma_ids.contains(&row.lemma_id) {
                return false;
            }
        }
    }
    let ghost sel = filters.selection();
    let mut i: usize = 0;
    while i < entries.len()
        invariant
            sel == filters.selection(),
            sel == selection_views(entries@),
            excluded == (match excluded_category {
                Some(e) => Some(e@),
                None => None::<Seq<char>>,
            }),
            i <= sel.len(),
            forall|j: int| 0 <= j < i ==> #[trigger] selection_admits(row@, sel[j].0, sel[j].1, excluded),
        decreases sel.len() - i,
    {
        let category = &entries[i].0;
        let selected_ids = &entries[i].1;
        assert(sel[i as int] == (category@, selected_ids@));
        if selected_ids.is_empty() || opt_str_eq(excluded_category, category.as_str()) {
            i = i + 1;
            continue;
        }
        match row.constant_ids.get(category.as_str()) {
            None => {
                assert(!selection_admits(row@, sel[i as int].0, sel[i as int].1, excluded));
                return false;
            },
            Some(v) => {
                if !selected_ids.contains(&v) {
                    assert(!selection_admits(row@, sel[i as int].0, sel[i as int].1, excluded));
                    return false;
                }
            },
        }
        i = i + 1;
    }
    true
}

// ---------------------------------------------------------------------------
// The order of `String`
// ---------------------------------------------------------------------------

/// Any two texts are ordered one way or the other.
pub proof fn lemma_lex_total(a: Seq<char>, b: Seq<char>)
    ensures
        lex_le(a, b) || lex_le(b, a),
    decreases a.len(),
{
    if a.len() > 0 && b.len() > 0 && a[0] == b[0] {
        lemma_lex_total(a.drop_first(), b.drop_first());
    }
}

/// Two texts ordered both ways are equal.
pub proof fn lemma_lex_antisymmetric(a: Seq<char>, b: Seq<char>)
    requires
        lex_le(a, b),
        lex_le(b, a),
    ensures
        a == b,
    decreases a.len(),
{
    if a.len() == 0 {
        assert(a =~= b);
    } else {
        lemma_lex_antisymmetric(a.drop_first(), b.drop_first());
        assert forall|i: int| 0 <= i < a.len() implies a[i] == b[i] by {
            if i > 0 {
                assert(a[i] == a.drop_first()[i - 1]);
                assert(b[i] == b.drop_first()[i - 1]);
            }
        }
        assert(a =~= b);
    }
}

/// The order of texts is transitive.
pub proof fn lemma_lex_transitive(a: Seq<char>, b: Seq<char>, c: Seq<char>)
    requires
        lex_le(a, b),
        lex_le(b, c),
    ensures
        lex_le(a, c),
    decreases a.len(),
{
    if a.len() > 0 && b.len() > 0 && c.len() > 0 && a[0] == b[0] && b[0] == c[0] {
        lemma_lex_transitive(a.drop_first(), b.drop_first(), c.drop_first());
    }
}

// ---------------------------------------------------------------------------
// Categories in display order
// ---------------------------------------------------------------------------

/// Whether category `a` is shown before category `b`: by their place in the
/// filter order, then by name.
pub open spec fn category_before(a: Seq<char>, b: Seq<char>) -> bool {
    ||| category_rank_of(a) < category_rank_of(b)
    ||| (category_rank_of(a) == category_rank_of(b) && a != b && lex_le(a, b))
}

/// The number of leading entries that are shown before `c`.
pub open spec fn category_position(sorted: Seq<Seq<char>>, c: Seq<char>) -> nat
    decreases sorted.len(),
{
    if sorted.len() == 0 {
        0
    } else if category_before(sorted[0], c) {
        1 + category_position(sorted.drop_first(), c)
    } else {
        0
    }
}

/// The sorted categories with `c` added in its place, unless it is there.
pub open spec fn with_category(sorted: Seq<Seq<char>>, c: Seq<char>) -> Seq<Seq<char>> {
    if sorted.contains(c) {
        sorted
    } else {
        sorted.insert(category_position(sorted, c) as int, c)
    }
}

/// The distinct categories among `keys`, in display order.
pub open spec fn categories_in(keys: Seq<Seq<char>>) -> Seq<Seq<char>>
    decreases keys.len(),
{
    if keys.len() == 0 {
        Seq::empty()
    } else {
        with_category(categories_in(keys.drop_last()), keys.last())
    }
}

/// The categories of the rows' constants, row by row.
pub open spec fn row_categories(rows: Seq<QuizRowView>) -> Seq<Seq<char>>
    decreases rows.len(),
{
    if rows.len() == 0 {
        Seq::empty()
    } else {
        row_categories(rows.drop_last()) + assoc_keys(rows.last().constant_ids)
    }
}

/// Whether the categories are in strictly increasing display order.
pub open spec fn strictly_ordered(s: Seq<Seq<char>>) -> bool {
    forall|i: int, j: int| 0 <= i < j < s.len() ==> #[trigger] category_before(s[i], s[j])
}

proof fn lemma_category_before_total(a: Seq<char>, b: Seq<char>)
    requires
        a != b,
    ensures
        category_before(a, b) || category_before(b, a),
{
    lemma_lex_total(a, b);
}

proof fn lemma_category_before_transitive(a: Seq<char>, b: Seq<char>, c: Seq<char>)
    requires
        category_before(a, b),
        category_before(b, c),
    ensures
        category_before(a, c),
{
    if category_rank_of(a) == category_rank_of(b) && category_rank_of(b) == category_rank_of(c) {
        lemma_lex_transitive(a, b, c);
        if a == c {
            lemma_lex_antisymmetric(a, b);
        }
    }
}

proof fn lemma_category_position(sorted: Seq<Seq<char>>, c: Seq<char>)
    requires
        strictly_ordered(sorted),
        !sorted.contains(c),
    ensures
        category_position(sorted, c) <= sorted.len(),
        forall|i: int| 0 <= i < category_position(sorted, c) ==> category_before(#[trigger] sorted[i], c),
        forall|i: int| category_position(sorted, c) <= i < sorted.len() ==> category_before(c, #[trigger] sorted[i]),
    decreases sorted.len(),
{
    if sorted.len() > 0 {
        let t = sorted.drop_first();
        assert forall|i: int, j: int| 0 <= i < j < t.len() implies #[trigger] category_before(t[i], t[j]) by {
            assert(category_before(sorted[i + 1], sorted[j + 1]));
        }
        assert forall|x: Seq<char>| t.contains(x) implies sorted.contains(x) by {
            let k = choose|k: int| 0 <= k < t.len() && t[k] == x;
            assert(sorted[k + 1] == x);
        }
        lemma_category_position(t, c);
        if category_before(sorted[0], c) {
            assert forall|i: int| 0 <= i < category_position(sorted, c) implies category_before(#[trigger] sorted[i], c) by {
                if i > 0 {
                    assert(sorted[i] == t[i - 1]);
                }
            }
            assert forall|i: int| category_position(sorted, c) <= i < sorted.len() implies category_before(c, #[trigger] sorted[i]) by {
                assert(sorted[i] == t[i - 1]);
            }
        } else {
            assert(sorted[0] != c);
            lemma_category_before_total(sorted[0], c);
            assert forall|i: int| 0 <= i < sorted.len() implies category_before(c, #[trigger] sorted[i]) by {
                if i > 0 {
                    assert(category_before(sorted[0], sorted[i]));
                    lemma_category_before_transitive(c, sorted[0], sorted[i]);
                }
            }
        }
    }
}

proof fn lemma_with_category(sorted: Seq<Seq<char>>, c: Seq<char>)
    requires
        strictly_ordered(sorted),
    ensures
        strictly_ordered(with_category(sorted, c)),
        forall|x: Seq<char>| with_category(sorted, c).contains(x) <==> (sorted.contains(x) || x == c),
{
    if !sorted.contains(c) {
        lemma_category_position(sorted, c);
        let p = category_position(sorted, c) as int;
        let r = sorted.insert(p, c);
        assert forall|i: int, j: int| 0 <= i < j < r.len() implies #[trigger] category_before(r[i], r[j]) by {
            if j < p {
            } else if j == p {
                assert(r[i] == sorted[i]);
            } else if i < p {
                assert(r[i] == sorted[i] && r[j] == sorted[j - 1]);
                lemma_category_before_transitive(sorted[i], c, sorted[j - 1]);
            } else if i == p {
                assert(r[j] == sorted[j - 1]);
            } else {
                assert(r[i] == sorted[i - 1] && r[j] == sorted[j - 1]);
            }
        }
        assert forall|x: Seq<char>| r.contains(x) <==> (sorted.contains(x) || x == c) by {
            if r.contains(x) {
                let k = choose|k: int| 0 <= k < r.len() && r[k] == x;
                if k < p {
                    assert(sorted[k] == x);
                } else if k > p {
                    assert(sorted[k - 1] == x);
                }
            }
            if sorted.contains(x) {
                let k = choose|k: int| 0 <= k < sorted.len() && sorted[k] == x;
                if k < p {
                    assert(r[k] == x);
                } else {
                    assert(r[k + 1] == x);
                }
            }
            if x == c {
                assert(r[p] == c);
            }
        }
    }
}

/// The categories of the filter sections are in strictly increasing display
/// order, and they are exactly the categories that occur among the keys.
pub proof fn lemma_categories_in(keys: Seq<Seq<char>>)
    ensures
        strictly_ordered(categories_in(keys)),
        forall|x: Seq<char>| categories_in(keys).contains(x) <==> keys.contains(x),
    decreases keys.len(),
{
    if keys.len() > 0 {
        lemma_categories_in(keys.drop_last());
        lemma_with_category(categories_in(keys.drop_last()), keys.last());
        assert forall|x: Seq<char>| categories_in(keys).contains(x) <==> keys.contains(x) by {
            if keys.drop_last().contains(x) {
                let k = choose|k: int| 0 <= k < keys.drop_last().len() && keys.drop_last()[k] == x;
                assert(keys[k] == x);
            }
            if keys.contains(x) && x != keys.last() {
                let k = choose|k: int| 0 <= k < keys.len() && keys[k] == x;
                assert(keys.drop_last()[k] == x);
            }
        }
    }
}

fn category_before_exec(a: &str, b: &str) -> (r: bool)
    ensures
        r == category_before(a@, b@),
{
    let ra = category_rank(a);
    let rb = category_rank(b);
    if ra < rb {
        true
    } else if ra == rb && !str_eq(a, b) {
        let ca = chars_of(a);
        let cb = chars_of(b);
        lex_le_chars(ca.as_slice(), cb.as_slice())
    } else {
        false
    }
}

fn contains_str(v: &Vec<String>, x: &str) -> (r: bool)
    ensures
        r == v.deep_view().contains(x@),
{
    let mut i: usize = 0;
    while i < v.len()
        invariant
            i <= v@.len(),
            forall|j: int| 0 <= j < i ==> v.deep_view()[j] != x@,
        decreases v@.len() - i,
    {
        if str_eq(v[i].as_str(), x) {
            assert(v.deep_view()[i as int] == x@);
            return true;
        }
        i = i + 1;
    }
    proof {
        if v.deep_view().contains(x@) {
            let k = choose|k: int| 0 <= k < v.deep_view().len() && v.deep_view()[k] == x@;
            assert(false);
        }
    }
    false
}

fn insert_category(sorted: &mut Vec<String>, c: &str)
    ensures
        final(sorted).deep_view() == with_category(old(sorted).deep_view(), c@),
{
    if contains_str(sorted, c) {
        return;
    }
    let ghost before = sorted.deep_view();
    let mut pos: usize = 0;
    assert(before.skip(0) =~= before);
    while pos < sorted.len() && category_before_exec(sorted[pos].as_str(), c)
        invariant
            pos <= sorted@.len(),
            before == sorted.deep_view(),
            category_position(before, c@) == pos + category_position(before.skip(pos as int), c@),
        decreases sorted@.len() - pos,
    {
        assert(before.skip(pos as int).drop_first() =~= before.skip(pos + 1));
        assert(before.skip(pos as int)[0] == sorted@[pos as int]@);
        pos = pos + 1;
    }
    proof {
        if pos < sorted@.len() {
            assert(before.skip(pos as int)[0] == sorted@[pos as int]@);
        }
    }
    sorted.insert(pos, crate::text::string_from_str(c));
    assert(sorted.deep_view() =~= before.insert(pos as int, c@));
}

/// The distinct categories of the rows' constants, in display order.
pub fn filter_categories(rows: &[QuizRow]) -> (r: Vec<String>)
    ensures
        r.deep_view() == categories_in(row_categories(rows@.map_values(|x: QuizRow| x@))),
{
    let ghost rv = rows@.map_values(|x: QuizRow| x@);
    let mut cats: Vec<String> = Vec::new();
    let mut i: usize = 0;
    assert(cats.deep_view() =~= Seq::<Seq<char>>::empty());
    assert(rv.take(0) =~= Seq::<QuizRowView>::empty());
    while i < rows.len()
        invariant
            rv == rows@.map_values(|x: QuizRow| x@),
            i <= rows@.len(),
            cats.deep_view() == categories_in(row_categories(rv.take(i as int))),
        decreases rows@.len() - i,
    {
        let row = &rows[i];
        let ghost keys_before = row_categories(rv.take(i as int));
        let ghost ks = assoc_keys(row.constant_ids@);
        assert(rv.take(i + 1).drop_last() =~= rv.take(i as int));
        assert(rv.take(i + 1).last() == row@);
        let mut k: usize = 0;
        assert(keys_before + ks.take(0) =~= keys_before);
        while k < row.constant_ids.entries.len()
            invariant
                i < rows@.len(),
                row == &rows@[i as int],
                ks == assoc_keys(row.constant_ids@),
                ks.len() == row.constant_ids.entries@.len(),
                k <= ks.len(),
                cats.deep_view() == categories_in(keys_before + ks.take(k as int)),
            decreases ks.len() - k,
        {
            assert(ks[k as int] == row.constant_ids.entries@[k as int].0@);
            insert_category(&mut cats, row.constant_ids.entries[k].0.as_str());
            assert((keys_before + ks.take(k + 1)).drop_last() =~= keys_before + ks.take(k as int));
            k = k + 1;
        }
        assert(ks.take(k as int) =~= ks);
        i = i + 1;
    }
    assert(rv.take(i as int) =~= rv);
    cats
}


// ---------------------------------------------------------------------------
// The options of a section
// ---------------------------------------------------------------------------

/// Whether option `a` may be shown before option `b`: by sort order, then by
/// lowercase display label.
pub open spec fn option_le(a: ConstantView, b: ConstantView) -> bool {
    ||| a.sort_order < b.sort_order
    ||| (a.sort_order == b.sort_order && lex_le(
        unicode_lowercase(a.display_label),
        unicode_lowercase(b.display_label),
    ))
}

/// Where `x` goes in a sorted list of options: after the leading entries that
/// may be shown before it.
pub open spec fn option_position(sorted: Seq<ConstantView>, x: ConstantView) -> nat
    decreases sorted.len(),
{
    if sorted.len() == 0 {
        0
    } else if !option_le(sorted[0], x) {
        0
    } else {
        1 + option_position(sorted.drop_first(), x)
    }
}

/// The options sorted by sort order and lowercase label; options that compare
/// equal keep their order.
pub open spec fn options_sorted(s: Seq<ConstantView>) -> Seq<ConstantView>
    decreases s.len(),
{
    if s.len() == 0 {
        Seq::empty()
    } else {
        let sorted = options_sorted(s.drop_last());
        sorted.insert(option_position(sorted, s.last()) as int, s.last())
    }
}

/// The options without an entry whose label equals that of the entry kept
/// just before it.
pub open spec fn labels_deduped(s: Seq<ConstantView>) -> Seq<ConstantView>
    decreases s.len(),
{
    if s.len() == 0 {
        Seq::empty()
    } else {
        let kept = labels_deduped(s.drop_last());
        if kept.len() > 0 && kept.last().label == s.last().label {
            kept
        } else {
            kept.push(s.last())
        }
    }
}

/// The constants of one category, in catalogue order.
pub open spec fn category_constants(cs: Seq<ConstantView>, category: Seq<char>) -> Seq<ConstantView>
    decreases cs.len(),
{
    if cs.len() == 0 {
        Seq::empty()
    } else if cs.last().category == category {
        category_constants(cs.drop_last(), category).push(cs.last())
    } else {
        category_constants(cs.drop_last(), category)
    }
}

/// The options offered for a category.
pub open spec fn section_options(cs: Seq<ConstantView>, category: Seq<char>) -> Seq<ConstantView> {
    labels_deduped(options_sorted(category_constants(cs, category)))
}

/// The sections of the given categories that offer a choice: more than one option.
pub open spec fn sections_for(cs: Seq<ConstantView>, cats: Seq<Seq<char>>) -> Seq<FilterSectionView>
    decreases cats.len(),
{
    if cats.len() == 0 {
        Seq::empty()
    } else {
        let before = sections_for(cs, cats.drop_last());
        let options = section_options(cs, cats.last());
        if options.len() > 1 {
            before.push(FilterSectionView { key: cats.last(), title: title_of_identifier(cats.last()), options })
        } else {
            before
        }
    }
}

/// The filter sections of a catalogue and its rows: one per category of the
/// rows' constants, in display order, when it offers a choice.
pub open spec fn filter_sections_of(cs: Seq<ConstantView>, rows: Seq<QuizRowView>) -> Seq<FilterSectionView> {
    sections_for(cs, categories_in(row_categories(rows)))
}

proof fn lemma_option_position_bound(sorted: Seq<ConstantView>, x: ConstantView)
    ensures
        option_position(sorted, x) <= sorted.len(),
    decreases sorted.len(),
{
    if sorted.len() > 0 {
        lemma_option_position_bound(sorted.drop_first(), x);
    }
}

fn option_le_exec(a: &GrammarConstant, ka: &Vec<char>, b: &GrammarConstant, kb: &Vec<char>) -> (r: bool)
    requires
        ka@ == unicode_lowercase(a.display_label@),
        kb@ == unicode_lowercase(b.display_label@),
    ensures
        r == option_le(a@, b@),
{
    if a.sort_order < b.sort_order {
        true
    } else if a.sort_order == b.sort_order {
        lex_le_chars(ka.as_slice(), kb.as_slice())
    } else {
        false
    }
}

/// The options of a category: its constants sorted by sort order and
/// lowercase label, without repeated labels.
pub fn build_section_options(constants: &ConstantTable, category: &str) -> (r: Vec<GrammarConstant>)
    ensures
        constant_views(r@) == section_options(constants@, category@),
{
    let ghost cs = constants@;
    let mut sorted: Vec<GrammarConstant> = Vec::new();
    let mut keys: Vec<Vec<char>> = Vec::new();
    let mut i: usize = 0;
    assert(cs.take(0) =~= Seq::<ConstantView>::empty());
    assert(constant_views(sorted@) =~= Seq::<ConstantView>::empty());
    while i < constants.items.len()
        invariant
            cs == constants@,
            cs.len() == constants.items@.len(),
            i <= cs.len(),
            keys@.len() == sorted@.len(),
            forall|j: int| 0 <= j < sorted@.len() ==> (#[trigger] keys@[j])@ == unicode_lowercase(sorted@[j].display_label@),
            constant_views(sorted@) == options_sorted(category_constants(cs.take(i as int), category@)),
        decreases cs.len() - i,
    {
        let c = &constants.items[i];
        assert(cs[i as int] == c@);
        assert(cs.take(i + 1).drop_last() =~= cs.take(i as int));
        assert(cs.take(i + 1).last() == c@);
        let ghost cc = category_constants(cs.take(i as int), category@);
        if str_eq(c.category.as_str(), category) {
            assert(category_constants(cs.take(i + 1), category@) == cc.push(c@));
            assert(cc.push(c@).drop_last() =~= cc);
            let lc = to_lowercase(c.display_label.as_str());
            let kc = chars_of(lc.as_str());
            let ghost before = constant_views(sorted@);
            let mut pos: usize = 0;
            assert(before.skip(0) =~= before);
            while pos < sorted.len() && option_le_exec(&sorted[pos], &keys[pos], c, &kc)
                invariant
                    keys@.len() == sorted@.len(),
                    pos <= sorted@.len(),
                    before == constant_views(sorted@),
                    kc@ == unicode_lowercase(c.display_label@),
                    forall|j: int| 0 <= j < sorted@.len() ==> (#[trigger] keys@[j])@ == unicode_lowercase(sorted@[j].display_label@),
                    option_position(before, c@) == pos + option_position(before.skip(pos as int), c@),
                decreases sorted@.len() - pos,
            {
                assert(before.skip(pos as int).drop_first() =~= before.skip(pos + 1));
                assert(before.skip(pos as int)[0] == sorted@[pos as int]@);
                pos = pos + 1;
            }
            proof {
                if pos < sorted@.len() {
                    assert(before.skip(pos as int)[0] == sorted@[pos as int]@);
                }
            }
            let ghost old_sorted = sorted@;
            let ghost old_keys = keys@;
            sorted.insert(pos, c.duplicate());
            keys.insert(pos, kc);
            proof {
                assert(constant_views(sorted@) =~= before.insert(pos as int, c@));
                assert forall|j: int| 0 <= j < sorted@.len() implies (#[trigger] keys@[j])@ == unicode_lowercase(sorted@[j].display_label@) by {
                    if j < pos {
                        assert(sorted@[j] == old_sorted[j] && keys@[j] == old_keys[j]);
                    } else if j > pos {
                        assert(sorted@[j] == old_sorted[j - 1] && keys@[j] == old_keys[j - 1]);
                    }
                }
            }
        } else {
            assert(category_constants(cs.take(i + 1), category@) == cc);
        }
        i = i + 1;
    }
    assert(cs.take(i as int) =~= cs);
    let ghost all = constant_views(sorted@);
    let mut out: Vec<GrammarConstant> = Vec::new();
    let mut k: usize = 0;
    assert(all.take(0) =~= Seq::<ConstantView>::empty());
    assert(constant_views(out@) =~= Seq::<ConstantView>::empty());
    while k < sorted.len()
        invariant
            all == constant_views(sorted@),
            k <= sorted@.len(),
            constant_views(out@) == labels_deduped(all.take(k as int)),
        decreases sorted@.len() - k,
    {
        assert(all.take(k + 1).drop_last() =~= all.take(k as int));
        assert(all.take(k + 1).last() == sorted@[k as int]@);
        let ghost kept = constant_views(out@);
        let n = out.len();
        let repeated = n > 0 && str_eq(out[n - 1].label.as_str(), sorted[k].label.as_str());
        if !repeated {
            let x = sorted[k].duplicate();
            out.push(x);
            assert(constant_views(out@) =~= kept.push(x@));
        } else {
            assert(kept.last() == out@[n - 1]@);
        }
        k = k + 1;
    }
    assert(all.take(k as int) =~= all);
    out
}

/// The filter sections: one per category of the rows' constants, in display
/// order, with the category's options; a category with at most one option is
/// left out.
pub fn build_filter_sections(constants: &ConstantTable, rows: &[QuizRow]) -> (r: Vec<FilterSection>)
    ensures
        section_views(r@) == filter_sections_of(constants@, rows@.map_values(|x: QuizRow| x@)),
{
    let cats = filter_categories(rows);
    let ghost cv = cats.deep_view();
    let mut sections: Vec<FilterSection> = Vec::new();
    let mut i: usize = 0;
    assert(cv.take(0) =~= Seq::<Seq<char>>::empty());
    assert(section_views(sections@) =~= Seq::<FilterSectionView>::empty());
    while i < cats.len()
        invariant
            cv == cats.deep_view(),
            i <= cats@.len(),
            section_views(sections@) == sections_for(constants@, cv.take(i as int)),
        decreases cats@.len() - i,
    {
        let category = &cats[i];
        assert(cv.take(i + 1).drop_last() =~= cv.take(i as int));
        assert(cv.take(i + 1).last() == category@);
        let options = build_section_options(constants, category.as_str());
        if options.len() > 1 {
            let section = FilterSection {
                key: category.clone(),
                title: title_case_identifier(category.as_str()),
                options,
            };
            let ghost before = section_views(sections@);
            sections.push(section);
            assert(section_views(sections@) =~= before.push(section@));
        }
        i = i + 1;
    }
    assert(cv.take(i as int) =~= cv);
    sections
}


// ---------------------------------------------------------------------------
// Laws
// ---------------------------------------------------------------------------

/// With nothing selected, every row passes the filters.
pub proof fn law_empty_filters_match_all(row: QuizRowView, excluded: Option<Seq<char>>, exclude_selected_lemma: bool)
    ensures
        row_matches(row, Seq::empty(), Set::empty(), excluded, exclude_selected_lemma),
{
    assert(Set::<i64>::empty().is_empty());
}

/// The selection of the excluded category does not matter: the rows that
/// pass are the same whatever is selected there.
pub proof fn law_excluded_category_ignored(
    row: QuizRowView,
    selection: Seq<(Seq<char>, Set<i64>)>,
    lemma_ids: Set<i64>,
    category: Seq<char>,
    i: int,
    other: Set<i64>,
    exclude_selected_lemma: bool,
)
    requires
        0 <= i < selection.len(),
        selection[i].0 == category,
    ensures
        row_matches(row, selection, lemma_ids, Some(category), exclude_selected_lemma) == row_matches(
            row,
            selection.update(i, (category, other)),
            lemma_ids,
            Some(category),
            exclude_selected_lemma,
        ),
{
    let t = selection.update(i, (category, other));
    assert forall|j: int| 0 <= j < selection.len() implies #[trigger] selection_admits(row, selection[j].0, selection[j].1, Some(category))
        == selection_admits(row, t[j].0, t[j].1, Some(category)) by {
        if j == i {
        } else {
            assert(t[j] == selection[j]);
        }
    }
    if row_matches(row, selection, lemma_ids, Some(category), exclude_selected_lemma) {
        assert forall|j: int| 0 <= j < t.len() implies #[trigger] selection_admits(row, t[j].0, t[j].1, Some(category)) by {
            assert(selection_admits(row, selection[j].0, selection[j].1, Some(category)));
        }
    }
    if row_matches(row, t, lemma_ids, Some(category), exclude_selected_lemma) {
        assert forall|j: int| 0 <= j < selection.len() implies #[trigger] selection_admits(row, selection[j].0, selection[j].1, Some(category)) by {
            assert(selection_admits(row, t[j].0, t[j].1, Some(category)));
        }
    }
}

proof fn lemma_sections_for(cs: Seq<ConstantView>, cats: Seq<Seq<char>>)
    requires
        strictly_ordered(cats),
    ensures
        forall|i: int| 0 <= i < sections_for(cs, cats).len() ==> cats.contains(#[trigger] sections_for(cs, cats)[i].key),
        forall|i: int| 0 <= i < sections_for(cs, cats).len() ==> #[trigger] sections_for(cs, cats)[i].options.len() > 1,
        forall|i: int, j: int|
            0 <= i < j < sections_for(cs, cats).len() ==> category_before(
                #[trigger] sections_for(cs, cats)[i].key,
                #[trigger] sections_for(cs, cats)[j].key,
            ),
    decreases cats.len(),
{
    if cats.len() > 0 {
        let prev_cats = cats.drop_last();
        assert forall|i: int, j: int| 0 <= i < j < prev_cats.len() implies #[trigger] category_before(prev_cats[i], prev_cats[j]) by {
            assert(category_before(cats[i], cats[j]));
        }
        lemma_sections_for(cs, prev_cats);
        let prev = sections_for(cs, prev_cats);
        let r = sections_for(cs, cats);
        assert forall|i: int| 0 <= i < prev.len() implies cats.contains(#[trigger] prev[i].key) && category_before(prev[i].key, cats.last()) by {
            let k = choose|k: int| 0 <= k < prev_cats.len() && prev_cats[k] == prev[i].key;
            assert(cats[k] == prev[i].key);
            assert(category_before(cats[k], cats[cats.len() - 1]));
        }
        assert(cats[cats.len() - 1] == cats.last());
        if section_options(cs, cats.last()).len() > 1 {
            assert forall|i: int| 0 <= i < r.len() implies cats.contains(#[trigger] r[i].key) by {
                if i < prev.len() {
                    assert(r[i] == prev[i]);
                }
            }
            assert forall|i: int, j: int| 0 <= i < j < r.len() implies category_before(#[trigger] r[i].key, #[trigger] r[j].key) by {
                assert(r[i] == prev[i]);
                if j < prev.len() {
                    assert(r[j] == prev[j]);
                }
            }
        } else {
            assert forall|i: int| 0 <= i < r.len() implies cats.contains(#[trigger] r[i].key) by {
                assert(r[i] == prev[i]);
            }
        }
    }
}

// ---------------------------------------------------------------------------
// The order and labels of a section's options
// ---------------------------------------------------------------------------

/// The options come in the order in which they are shown.
pub open spec fn options_in_order(s: Seq<ConstantView>) -> bool {
    forall|i: int, j: int| 0 <= i < j < s.len() ==> option_le(#[trigger] s[i], #[trigger] s[j])
}

/// No two neighbouring options carry the same label.
pub open spec fn neighbours_differ(s: Seq<ConstantView>) -> bool {
    forall|i: int| 0 <= i < s.len() - 1 ==> (#[trigger] s[i]).label != s[i + 1].label
}

proof fn lemma_option_le_total(a: ConstantView, b: ConstantView)
    ensures
        option_le(a, b) || option_le(b, a),
{
    lemma_lex_total(unicode_lowercase(a.display_label), unicode_lowercase(b.display_label));
}

proof fn lemma_option_le_transitive(a: ConstantView, b: ConstantView, c: ConstantView)
    requires
        option_le(a, b),
        option_le(b, c),
    ensures
        option_le(a, c),
{
    if a.sort_order == b.sort_order && b.sort_order == c.sort_order {
        lemma_lex_transitive(
            unicode_lowercase(a.display_label),
            unicode_lowercase(b.display_label),
            unicode_lowercase(c.display_label),
        );
    }
}

proof fn lemma_option_position(sorted: Seq<ConstantView>, x: ConstantView)
    ensures
        option_position(sorted, x) <= sorted.len(),
        forall|k: int| 0 <= k < option_position(sorted, x) ==> option_le(#[trigger] sorted[k], x),
        option_position(sorted, x) < sorted.len() ==> !option_le(sorted[option_position(sorted, x) as int], x),
    decreases sorted.len(),
{
    if sorted.len() > 0 && option_le(sorted[0], x) {
        let t = sorted.drop_first();
        lemma_option_position(t, x);
        assert forall|k: int| 0 <= k < option_position(sorted, x) implies option_le(#[trigger] sorted[k], x) by {
            if k > 0 {
                assert(sorted[k] == t[k - 1]);
            }
        }
        if option_position(sorted, x) < sorted.len() {
            assert(sorted[option_position(sorted, x) as int] == t[option_position(t, x) as int]);
        }
    }
}

proof fn lemma_options_sorted(s: Seq<ConstantView>)
    ensures
        options_sorted(s).len() == s.len(),
        options_in_order(options_sorted(s)),
        forall|i: int| 0 <= i < options_sorted(s).len() ==> s.contains(#[trigger] options_sorted(s)[i]),
    decreases s.len(),
{
    if s.len() > 0 {
        let t = s.drop_last();
        let sorted = options_sorted(t);
        let x = s.last();
        lemma_options_sorted(t);
        lemma_option_position(sorted, x);
        let p = option_position(sorted, x) as int;
        let r = sorted.insert(p, x);
        sorted.insert_ensures(p, x);
        assert(r == options_sorted(s));
        assert forall|i: int, j: int| 0 <= i < j < r.len() implies option_le(#[trigger] r[i], #[trigger] r[j]) by {
            if j < p {
                assert(r[i] == sorted[i] && r[j] == sorted[j]);
            } else if j == p {
                assert(r[i] == sorted[i]);
            } else if i < p {
                assert(r[i] == sorted[i] && r[j] == sorted[j - 1]);
            } else if i == p {
                assert(r[j] == sorted[j - 1]);
                lemma_option_le_total(sorted[p], x);
                if j - 1 > p {
                    lemma_option_le_transitive(x, sorted[p], sorted[j - 1]);
                }
            } else {
                assert(r[i] == sorted[i - 1] && r[j] == sorted[j - 1]);
            }
        }
        assert forall|i: int| 0 <= i < r.len() implies s.contains(#[trigger] r[i]) by {
            if i == p {
                assert(s[s.len() - 1] == x);
            } else {
                let y = if i < p { sorted[i] } else { sorted[i - 1] };
                assert(r[i] == y);
                assert(t.contains(y));
                let k = choose|k: int| 0 <= k < t.len() && t[k] == y;
                assert(s[k] == t[k]);
            }
        }
    }
}

proof fn lemma_labels_deduped(s: Seq<ConstantView>)
    requires
        options_in_order(s),
    ensures
        options_in_order(labels_deduped(s)),
        neighbours_differ(labels_deduped(s)),
        forall|i: int| 0 <= i < labels_deduped(s).len() ==> s.contains(#[trigger] labels_deduped(s)[i]),
    decreases s.len(),
{
    if s.len() > 0 {
        let t = s.drop_last();
        assert forall|i: int, j: int| 0 <= i < j < t.len() implies option_le(#[trigger] t[i], #[trigger] t[j]) by {
            assert(t[i] == s[i] && t[j] == s[j]);
        }
        lemma_labels_deduped(t);
        let kept = labels_deduped(t);
        let x = s.last();
        assert forall|i: int| 0 <= i < kept.len() implies s.contains(#[trigger] kept[i]) && option_le(kept[i], x) by {
            let k = choose|k: int| 0 <= k < t.len() && t[k] == kept[i];
            assert(s[k] == t[k]);
            assert(option_le(s[k], s[s.len() - 1]));
        }
        if !(kept.len() > 0 && kept.last().label == x.label) {
            let r = kept.push(x);
            assert forall|i: int, j: int| 0 <= i < j < r.len() implies option_le(#[trigger] r[i], #[trigger] r[j]) by {
                assert(r[i] == kept[i]);
                if j < kept.len() {
                    assert(r[j] == kept[j]);
                }
            }
            assert forall|i: int| 0 <= i < r.len() - 1 implies (#[trigger] r[i]).label != r[i + 1].label by {
                assert(r[i] == kept[i]);
                if i + 1 < kept.len() {
                    assert(r[i + 1] == kept[i + 1]);
                }
            }
            assert forall|i: int| 0 <= i < r.len() implies s.contains(#[trigger] r[i]) by {
                if i == kept.len() {
                    assert(s[s.len() - 1] == x);
                } else {
                    assert(r[i] == kept[i]);
                }
            }
        }
    }
}

proof fn lemma_category_constants(cs: Seq<ConstantView>, category: Seq<char>)
    ensures
        forall|i: int| 0 <= i < category_constants(cs, category).len() ==> (#[trigger] category_constants(cs, category)[i]).category == category,
    decreases cs.len(),
{
    if cs.len() > 0 {
        lemma_category_constants(cs.drop_last(), category);
        let prev = category_constants(cs.drop_last(), category);
        let r = category_constants(cs, category);
        assert forall|i: int| 0 <= i < r.len() implies (#[trigger] r[i]).category == category by {
            if i < prev.len() {
                assert(r[i] == prev[i]);
            }
        }
    }
}

/// The options of a category: all of that category, in the order in which
/// they are shown, with no two neighbours of the same label.
proof fn lemma_section_options(cs: Seq<ConstantView>, category: Seq<char>)
    ensures
        options_in_order(section_options(cs, category)),
        neighbours_differ(section_options(cs, category)),
        forall|i: int| 0 <= i < section_options(cs, category).len() ==> (#[trigger] section_options(cs, category)[i]).category == category,
{
    let cc = category_constants(cs, category);
    let sorted = options_sorted(cc);
    lemma_category_constants(cs, category);
    lemma_options_sorted(cc);
    lemma_labels_deduped(sorted);
    let r = section_options(cs, category);
    assert forall|i: int| 0 <= i < r.len() implies (#[trigger] r[i]).category == category by {
        let k = choose|k: int| 0 <= k < sorted.len() && sorted[k] == r[i];
        let m = choose|m: int| 0 <= m < cc.len() && cc[m] == sorted[k];
    }
}

proof fn lemma_sections_for_options(cs: Seq<ConstantView>, cats: Seq<Seq<char>>)
    ensures
        forall|i: int| 0 <= i < sections_for(cs, cats).len() ==> {
            let s = #[trigger] sections_for(cs, cats)[i];
            &&& s.title == title_of_identifier(s.key)
            &&& s.options == section_options(cs, s.key)
        },
    decreases cats.len(),
{
    if cats.len() > 0 {
        lemma_sections_for_options(cs, cats.drop_last());
        let prev = sections_for(cs, cats.drop_last());
        let r = sections_for(cs, cats);
        assert forall|i: int| 0 <= i < r.len() implies {
            let s = #[trigger] r[i];
            &&& s.title == title_of_identifier(s.key)
            &&& s.options == section_options(cs, s.key)
        } by {
            if i < prev.len() {
                assert(r[i] == prev[i]);
            }
        }
    }
}

/// The filter sections come in strictly increasing display order of their
/// categories, each category is one of the rows' categories, and each
/// section offers a choice of more than one option. Each section is titled
/// after its category, offers only constants of that category, in the order
/// of their sort order and then of their lowercase labels, and no two
/// neighbouring options carry the same label.
pub proof fn law_filter_sections(cs: Seq<ConstantView>, rows: Seq<QuizRowView>)
    ensures
        forall|i: int, j: int|
            0 <= i < j < filter_sections_of(cs, rows).len() ==> category_before(
                #[trigger] filter_sections_of(cs, rows)[i].key,
                #[trigger] filter_sections_of(cs, rows)[j].key,
            ),
        forall|i: int|
            0 <= i < filter_sections_of(cs, rows).len() ==> row_categories(rows).contains(
                #[trigger] filter_sections_of(cs, rows)[i].key,
            ),
        forall|i: int| 0 <= i < filter_sections_of(cs, rows).len() ==> #[trigger] filter_sections_of(cs, rows)[i].options.len() > 1,
        forall|i: int|
            0 <= i < filter_sections_of(cs, rows).len() ==> (#[trigger] filter_sections_of(cs, rows)[i]).title
                == title_of_identifier(filter_sections_of(cs, rows)[i].key),
        forall|i: int, k: int|
            0 <= i < filter_sections_of(cs, rows).len() && 0 <= k < filter_sections_of(cs, rows)[i].options.len()
                ==> (#[trigger] filter_sections_of(cs, rows)[i].options[k]).category == filter_sections_of(cs, rows)[i].key,
        forall|i: int| 0 <= i < filter_sections_of(cs, rows).len() ==> options_in_order(#[trigger] filter_sections_of(cs, rows)[i].options),
        forall|i: int| 0 <= i < filter_sections_of(cs, rows).len() ==> neighbours_differ(#[trigger] filter_sections_of(cs, rows)[i].options),
{
    let cats = categories_in(row_categories(rows));
    lemma_categories_in(row_categories(rows));
    lemma_sections_for(cs, cats);
    lemma_sections_for_options(cs, cats);
    let r = filter_sections_of(cs, rows);
    assert forall|i: int| 0 <= i < r.len() implies {
        &&& options_in_order(#[trigger] r[i].options)
        &&& neighbours_differ(r[i].options)
        &&& forall|k: int| 0 <= k < r[i].options.len() ==> (#[trigger] r[i].options[k]).category == r[i].key
    } by {
        lemma_section_options(cs, r[i].key);
    }
}


/// A row that passes the filters carries, for every category with a
/// non-empty selection that is not excluded, a constant of that category,
/// and that constant is selected; and it is one of the selected lemmas when
/// lemmas are selected and not ignored. Conversely a row that meets all of
/// this passes.
pub proof fn law_match_needs_selected_constant(
    row: QuizRowView,
    selection: Seq<(Seq<char>, Set<i64>)>,
    lemma_ids: Set<i64>,
    excluded: Option<Seq<char>>,
    exclude_selected_lemma: bool,
)
    ensures
        row_matches(row, selection, lemma_ids, excluded, exclude_selected_lemma) ==> forall|i: int|
            0 <= i < selection.len() && !selection[i].1.is_empty() && excluded != Some(selection[i].0) ==> (assoc_get(
                row.constant_ids,
                #[trigger] selection[i].0,
            ) matches Some(v) && selection[i].1.contains(v)),
        row_matches(row, selection, lemma_ids, excluded, exclude_selected_lemma) && !exclude_selected_lemma
            && !lemma_ids.is_empty() ==> lemma_ids.contains(row.lemma_id),
        ((exclude_selected_lemma || lemma_ids.is_empty() || lemma_ids.contains(row.lemma_id)) && forall|i: int|
            0 <= i < selection.len() && !selection[i].1.is_empty() && excluded != Some(selection[i].0) ==> (assoc_get(
                row.constant_ids,
                #[trigger] selection[i].0,
            ) matches Some(v) && selection[i].1.contains(v))) ==> row_matches(
            row,
            selection,
            lemma_ids,
            excluded,
            exclude_selected_lemma,
        ),
{
    if row_matches(row, selection, lemma_ids, excluded, exclude_selected_lemma) {
        assert forall|i: int|
            0 <= i < selection.len() && !selection[i].1.is_empty() && excluded != Some(selection[i].0) implies (assoc_get(
                row.constant_ids,
                #[trigger] selection[i].0,
            ) matches Some(v) && selection[i].1.contains(v)) by {
            assert(selection_admits(row, selection[i].0, selection[i].1, excluded));
        }
    }
}

} // verus!
