//! Parsing the stored paradigm text of a lemma into tables.
//!
//! The text is a list of `#`-separated segments. A segment without `&` is a
//! marker (a case, tense, voice, mood, variant ...) that applies to the next
//! block; a segment with `&` is a block: its own marker before the first `&`
//! and its values after, separated by `&`.
use vstd::prelude::*;

use crate::tags::{keep_non_empty, non_empty_pieces, trim_pieces, trimmed_pieces};
use crate::text::{
    chars_of, join_by, join_strings, prefixed_count, prefixed_decimal, split_chars_on, split_set, str_contains, str_eq,
    string_from_str, string_of, title_case, title_case_str, trim, trim_chars, trim_set, trim_str, contains_seq,
    decimal, CharSet,
};

verus! {

// ---------------------------------------------------------------------------
// The parsed paradigm
// ---------------------------------------------------------------------------

/// The kind of paradigm: how its tables are laid out.
#[derive(Clone, Copy, Debug, PartialEq, Eq, Structural)]
pub enum ParadigmFamily {
    Nominal,
    GenderedNominal,
    Verb,
}

/// The stored name of a family.
pub open spec fn family_name(f: ParadigmFamily) -> Seq<char> {
    match f {
        ParadigmFamily::Nominal => "nominal"@,
        ParadigmFamily::GenderedNominal => "gendered_nominal"@,
        ParadigmFamily::Verb => "verb"@,
    }
}

impl ParadigmFamily {
    /// The stored name of the family.
    pub fn as_str(&self) -> (r: &'static str)
        ensures
            r@ == family_name(*self),
    {
        match self {
            ParadigmFamily::Nominal => "nominal",
            ParadigmFamily::GenderedNominal => "gendered_nominal",
            ParadigmFamily::Verb => "verb",
        }
    }
}

/// One cell: its column, its text and the alternatives that the text lists.
#[derive(Debug)]
pub struct ParadigmCell {
    pub column_key: String,
    pub column_label: String,
    pub value: String,
    pub alternatives: Vec<String>,
}

/// One column of a table.
#[derive(Debug)]
pub struct ParadigmColumn {
    pub key: String,
    pub label: String,
}

/// One row of a table.
#[derive(Debug)]
pub struct ParadigmRow {
    pub key: String,
    pub label: String,
    pub cells: Vec<ParadigmCell>,
}

/// One table of a paradigm.
#[derive(Debug)]
pub struct ParadigmTable {
    pub kind: String,
    pub heading: String,
    pub columns: Vec<ParadigmColumn>,
    pub rows: Vec<ParadigmRow>,
}

/// A parsed paradigm.
#[derive(Debug)]
pub struct ParadigmEntry {
    pub title: String,
    pub family: ParadigmFamily,
    pub raw_payload: String,
    pub tables: Vec<ParadigmTable>,
}

pub struct ParadigmCellView {
    pub column_key: Seq<char>,
    pub column_label: Seq<char>,
    pub value: Seq<char>,
    pub alternatives: Seq<Seq<char>>,
}

pub struct ParadigmColumnView {
    pub key: Seq<char>,
    pub label: Seq<char>,
}

pub struct ParadigmRowView {
    pub key: Seq<char>,
    pub label: Seq<char>,
    pub cells: Seq<ParadigmCellView>,
}

pub struct ParadigmTableView {
    pub kind: Seq<char>,
    pub heading: Seq<char>,
    pub columns: Seq<ParadigmColumnView>,
    pub rows: Seq<ParadigmRowView>,
}

pub struct ParadigmEntryView {
    pub title: Seq<char>,
    pub family: ParadigmFamily,
    pub raw_payload: Seq<char>,
    pub tables: Seq<ParadigmTableView>,
}

impl View for ParadigmCell {
    type V = ParadigmCellView;

    open spec fn view(&self) -> ParadigmCellView {
        ParadigmCellView {
            column_key: self.column_key@,
            column_label: self.column_label@,
            value: self.value@,
            alternatives: self.alternatives.deep_view(),
        }
    }
}

impl View for ParadigmColumn {
    type V = ParadigmColumnView;

    open spec fn view(&self) -> ParadigmColumnView {
        ParadigmColumnView { key: self.key@, label: self.label@ }
    }
}

impl View for ParadigmRow {
    type V = ParadigmRowView;

    open spec fn view(&self) -> ParadigmRowView {
        ParadigmRowView { key: self.key@, label: self.label@, cells: self.cells@.map_values(|c: ParadigmCell| c@) }
    }
}

impl View for ParadigmTable {
    type V = ParadigmTableView;

    open spec fn view(&self) -> ParadigmTableView {
        ParadigmTableView {
            kind: self.kind@,
            heading: self.heading@,
            columns: self.columns@.map_values(|c: ParadigmColumn| c@),
            rows: self.rows@.map_values(|r: ParadigmRow| r@),
        }
    }
}

impl View for ParadigmEntry {
    type V = ParadigmEntryView;

    open spec fn view(&self) -> ParadigmEntryView {
        ParadigmEntryView {
            title: self.title@,
            family: self.family,
            raw_payload: self.raw_payload@,
            tables: table_views(self.tables@),
        }
    }
}

/// The views of a sequence of tables.
pub open spec fn table_views(s: Seq<ParadigmTable>) -> Seq<ParadigmTableView> {
    s.map_values(|t: ParadigmTable| t@)
}

/// The views of a sequence of rows.
pub open spec fn paradigm_row_views(s: Seq<ParadigmRow>) -> Seq<ParadigmRowView> {
    s.map_values(|r: ParadigmRow| r@)
}

/// Why a paradigm text could not be parsed.
#[derive(Debug)]
pub enum ParseError {
    /// The text holds no block.
    NoBlocks,
    /// A nominal paradigm without a case block.
    NoCaseBlock,
    /// A case block with a number of values that no layout has.
    UnsupportedCellCount(usize),
    /// A case row with the wrong number of values: the marker, the expected
    /// and the found count.
    CaseValueCount(String, usize, usize),
    /// A case row whose marker is not a case.
    UnknownCaseMarker(String),
    /// A verb block without a mood; its markers joined with `#`.
    MissingMood(String),
    /// An infinitive block with the wrong number of values: the heading, the
    /// expected and the found count.
    InfinitiveValueCount(String, usize, usize),
    /// A participle block with the wrong number of values: the heading, the
    /// expected and the found count.
    ParticipleValueCount(String, usize, usize),
    /// A non-finite block whose value count is not a multiple of the values
    /// per voice: the count and the values per voice.
    NotDivisible(usize, usize),
    /// A non-finite block with several voice groups but no voice marker.
    NoVoiceMarkers(usize),
    /// A non-finite block whose voice groups do not fit its voice markers: the
    /// number of voice markers and of voice groups.
    VoiceGroupMismatch(usize, usize),
}

/// The plain contents of a `ParseError`.
pub enum ParseErrorView {
    NoBlocks,
    NoCaseBlock,
    UnsupportedCellCount(nat),
    CaseValueCount(Seq<char>, nat, nat),
    UnknownCaseMarker(Seq<char>),
    MissingMood(Seq<char>),
    InfinitiveValueCount(Seq<char>, nat, nat),
    ParticipleValueCount(Seq<char>, nat, nat),
    NotDivisible(nat, nat),
    NoVoiceMarkers(nat),
    VoiceGroupMismatch(nat, nat),
}

impl View for ParseError {
    type V = ParseErrorView;

    open spec fn view(&self) -> ParseErrorView {
        match self {
            ParseError::NoBlocks => ParseErrorView::NoBlocks,
            ParseError::NoCaseBlock => ParseErrorView::NoCaseBlock,
            ParseError::UnsupportedCellCount(n) => ParseErrorView::UnsupportedCellCount(*n as nat),
            ParseError::CaseValueCount(m, e, f) => ParseErrorView::CaseValueCount(m@, *e as nat, *f as nat),
            ParseError::UnknownCaseMarker(m) => ParseErrorView::UnknownCaseMarker(m@),
            ParseError::MissingMood(m) => ParseErrorView::MissingMood(m@),
            ParseError::InfinitiveValueCount(h, e, f) => ParseErrorView::InfinitiveValueCount(h@, *e as nat, *f as nat),
            ParseError::ParticipleValueCount(h, e, f) => ParseErrorView::ParticipleValueCount(h@, *e as nat, *f as nat),
            ParseError::NotDivisible(c, p) => ParseErrorView::NotDivisible(*c as nat, *p as nat),
            ParseError::NoVoiceMarkers(g) => ParseErrorView::NoVoiceMarkers(*g as nat),
            ParseError::VoiceGroupMismatch(e, f) => ParseErrorView::VoiceGroupMismatch(*e as nat, *f as nat),
        }
    }
}

// ---------------------------------------------------------------------------
// Blocks
// ---------------------------------------------------------------------------

/// A block of the text: the markers that apply to it and its values.
#[derive(Debug)]
pub struct RawBlock {
    pub markers: Vec<String>,
    pub values: Vec<String>,
}

pub struct BlockView {
    pub markers: Seq<Seq<char>>,
    pub values: Seq<Seq<char>>,
}

impl View for RawBlock {
    type V = BlockView;

    open spec fn view(&self) -> BlockView {
        BlockView { markers: self.markers.deep_view(), values: self.values.deep_view() }
    }
}

/// The views of a sequence of blocks.
pub open spec fn block_views(s: Seq<RawBlock>) -> Seq<BlockView> {
    s.map_values(|b: RawBlock| b@)
}

/// A marker as written, without surrounding white space and slashes; none
/// when nothing is left.
pub open spec fn normalized_marker(segment: Seq<char>) -> Option<Seq<char>> {
    let n = trim(trim_set(trim(segment), CharSet::Slash));
    if n.len() == 0 {
        None
    } else {
        Some(n)
    }
}

/// The list holding the marker, if there is one.
pub open spec fn marker_list(m: Option<Seq<char>>) -> Seq<Seq<char>> {
    match m {
        Some(x) => seq![x],
        None => Seq::empty(),
    }
}

/// The position of the first `&` in a segment.
pub open spec fn first_ampersand(s: Seq<char>) -> Option<int>
    decreases s.len(),
{
    if s.len() == 0 {
        None
    } else if s[0] == '&' {
        Some(0)
    } else {
        match first_ampersand(s.drop_first()) {
            Some(k) => Some(k + 1),
            None => None,
        }
    }
}

/// The values of a block: the pieces after its marker, separated by `&`,
/// each trimmed.
pub open spec fn block_values(remainder: Seq<char>) -> Seq<Seq<char>> {
    split_set(remainder, CharSet::Ampersand).map_values(|v: Seq<char>| trim(v))
}

/// The markers waiting for a block, and the blocks so far, after one more
/// segment: a marker segment adds its marker to those waiting; a block
/// segment takes the waiting markers, adds its own and clears them.
pub open spec fn tokenized_step(
    state: (Seq<Seq<char>>, Seq<BlockView>),
    segment: Seq<char>,
) -> (Seq<Seq<char>>, Seq<BlockView>) {
    match first_ampersand(segment) {
        Some(k) => (
            Seq::empty(),
            state.1.push(
                BlockView {
                    markers: state.0 + marker_list(normalized_marker(segment.take(k))),
                    values: block_values(segment.skip(k + 1)),
                },
            ),
        ),
        None => (state.0 + marker_list(normalized_marker(segment)), state.1),
    }
}

/// The state after the segments.
pub open spec fn tokenized(segments: Seq<Seq<char>>) -> (Seq<Seq<char>>, Seq<BlockView>)
    decreases segments.len(),
{
    if segments.len() == 0 {
        (Seq::empty(), Seq::empty())
    } else {
        tokenized_step(tokenized(segments.drop_last()), segments.last())
    }
}

/// The non-empty `#`-separated segments of the text.
pub open spec fn segments_of(payload: Seq<char>) -> Seq<Seq<char>> {
    non_empty_pieces(split_set(payload, CharSet::Hash))
}

/// The blocks of the text; a text without any is refused.
pub open spec fn payload_blocks(payload: Seq<char>) -> Result<Seq<BlockView>, ParseErrorView> {
    let blocks = tokenized(segments_of(payload)).1;
    if blocks.len() == 0 {
        Err(ParseErrorView::NoBlocks)
    } else {
        Ok(blocks)
    }
}

fn normalize_marker(segment: &[char]) -> (r: Option<String>)
    ensures
        match r {
            Some(s) => normalized_marker(segment@) == Some(s@),
            None => normalized_marker(segment@) is None,
        },
{
    let a = trim_chars(segment, CharSet::WhiteSpace);
    let b = trim_chars(a.as_slice(), CharSet::Slash);
    let c = trim_chars(b.as_slice(), CharSet::WhiteSpace);
    if c.len() == 0 {
        None
    } else {
        Some(string_of(c.as_slice()))
    }
}

fn push_marker(markers: &mut Vec<String>, m: Option<String>)
    ensures
        final(markers).deep_view() == old(markers).deep_view() + marker_list(
            match m {
                Some(s) => Some(s@),
                None => None,
            },
        ),
{
    match m {
        Some(s) => {
            let ghost before = markers.deep_view();
            markers.push(s);
            assert(markers.deep_view() =~= before + seq![s@]);
        },
        None => {
            assert(markers.deep_view() =~= old(markers).deep_view() + Seq::<Seq<char>>::empty());
        },
    }
}

fn find_ampersand(s: &[char]) -> (r: Option<usize>)
    ensures
        match r {
            Some(k) => first_ampersand(s@) == Some(k as int) && k < s@.len(),
            None => first_ampersand(s@) is None,
        },
{
    let mut i: usize = 0;
    assert(s@.skip(0) =~= s@);
    while i < s.len()
        invariant
            i <= s@.len(),
            first_ampersand(s@) == (match first_ampersand(s@.skip(i as int)) {
                Some(k) => Some(k + i),
                None => None,
            }),
        decreases s@.len() - i,
    {
        assert(s@.skip(i as int)[0] == s@[i as int]);
        if s[i] == '&' {
            return Some(i);
        }
        assert(s@.skip(i as int).drop_first() =~= s@.skip(i + 1));
        i = i + 1;
    }
    None
}

fn trimmed_values(parts: &Vec<String>) -> (r: Vec<String>)
    ensures
        r.deep_view() == parts.deep_view().map_values(|v: Seq<char>| trim(v)),
{
    let mut out: Vec<String> = Vec::new();
    let mut i: usize = 0;
    while i < parts.len()
        invariant
            i <= parts@.len(),
            out.deep_view() == parts.deep_view().map_values(|v: Seq<char>| trim(v)).take(i as int),
        decreases parts@.len() - i,
    {
        let ghost before = out.deep_view();
        let t = trim_str(parts[i].as_str());
        out.push(t);
        assert(out.deep_view() =~= before.push(t@));
        i = i + 1;
        assert(out.deep_view() =~= parts.deep_view().map_values(|v: Seq<char>| trim(v)).take(i as int));
    }
    assert(parts.deep_view().map_values(|v: Seq<char>| trim(v)).take(i as int) =~= parts.deep_view().map_values(
        |v: Seq<char>| trim(v),
    ));
    out
}

fn subslice(s: &[char], from: usize, to: usize) -> (r: Vec<char>)
    requires
        from <= to <= s@.len(),
    ensures
        r@ == s@.subrange(from as int, to as int),
{
    let mut r: Vec<char> = Vec::new();
    let mut k: usize = from;
    while k < to
        invariant
            from <= k <= to <= s@.len(),
            r@ == s@.subrange(from as int, k as int),
        decreases to - k,
    {
        r.push(s[k]);
        k = k + 1;
        assert(r@ =~= s@.subrange(from as int, k as int));
    }
    r
}

/// The blocks of a paradigm text, each with the markers that precede it.
pub fn tokenize_payload(payload: &str) -> (r: Result<Vec<RawBlock>, ParseError>)
    ensures
        match (r, payload_blocks(payload@)) {
            (Ok(b), Ok(bv)) => block_views(b@) == bv,
            (Err(e), Err(ev)) => e@ == ev,
            _ => false,
        },
{
    let chars = chars_of(payload);
    let pieces = split_chars_on(chars.as_slice(), CharSet::Hash);
    let segments = keep_non_empty(&pieces);
    let ghost segs = segments.deep_view();
    let mut pending: Vec<String> = Vec::new();
    let mut blocks: Vec<RawBlock> = Vec::new();
    let mut i: usize = 0;
    assert(segs.take(0) =~= Seq::<Seq<char>>::empty());
    assert(pending.deep_view() =~= Seq::<Seq<char>>::empty());
    assert(block_views(blocks@) =~= Seq::<BlockView>::empty());
    while i < segments.len()
        invariant
            segs == segments.deep_view(),
            segs == segments_of(payload@),
            i <= segs.len(),
            (pending.deep_view(), block_views(blocks@)) == tokenized(segs.take(i as int)),
        decreases segs.len() - i,
    {
        let seg = chars_of(segments[i].as_str());
        assert(segs.take(i + 1).drop_last() =~= segs.take(i as int));
        assert(segs.take(i + 1).last() == seg@);
        match find_ampersand(seg.as_slice()) {
            Some(k) => {
                let n = seg.len();
                assert(k < n);
                let head = subslice(seg.as_slice(), 0, k);
                let tail = subslice(seg.as_slice(), k + 1, n);
                assert(head@ =~= seg@.take(k as int));
                assert(tail@ =~= seg@.skip(k + 1));
                let mut markers: Vec<String> = Vec::new();
                let mut j: usize = 0;
                while j < pending.len()
                    invariant
                        j <= pending@.len(),
                        markers.deep_view() == pending.deep_view().take(j as int),
                    decreases pending@.len() - j,
                {
                    let ghost before = markers.deep_view();
                    markers.push(pending[j].clone());
                    assert(markers.deep_view() =~= before.push(pending[j as int]@));
                    j = j + 1;
                    assert(markers.deep_view() =~= pending.deep_view().take(j as int));
                }
                assert(pending.deep_view().take(j as int) =~= pending.deep_view());
                push_marker(&mut markers, normalize_marker(head.as_slice()));
                let raw_values = split_chars_on(tail.as_slice(), CharSet::Ampersand);
                let values = trimmed_values(&raw_values);
                let block = RawBlock { markers, values };
                let ghost before = block_views(blocks@);
                blocks.push(block);
                assert(block_views(blocks@) =~= before.push(block@));
                pending = Vec::new();
                assert(pending.deep_view() =~= Seq::<Seq<char>>::empty());
            },
            None => {
                push_marker(&mut pending, normalize_marker(seg.as_slice()));
            },
        }
        i = i + 1;
    }
    assert(segs.take(i as int) =~= segs);
    if blocks.len() == 0 {
        Err(ParseError::NoBlocks)
    } else {
        Ok(blocks)
    }
}


// ---------------------------------------------------------------------------
// Markers
// ---------------------------------------------------------------------------

/// Whether a marker names a tense.
pub open spec fn is_tense_marker(m: Seq<char>) -> bool {
    ||| m == "present"@
    ||| m == "imperfect"@
    ||| m == "future"@
    ||| m == "aorist"@
    ||| m == "perfect"@
    ||| m == "pluperfect"@
    ||| m == "future_perfect"@
}

/// Whether a marker names a voice.
pub open spec fn is_voice_marker(m: Seq<char>) -> bool {
    m == "active"@ || m == "middle"@ || m == "passive"@
}

/// Whether a marker names a mood.
pub open spec fn is_mood_marker(m: Seq<char>) -> bool {
    ||| m == "indicative"@
    ||| m == "subjunctive"@
    ||| m == "optative"@
    ||| m == "imperative"@
    ||| m == "infinitive"@
    ||| m == "participle"@
}

/// The row key and label of a case marker.
pub open spec fn case_row_label(m: Seq<char>) -> Option<(Seq<char>, Seq<char>)> {
    if m == "nom"@ {
        Some(("nom"@, "N"@))
    } else if m == "gen"@ {
        Some(("gen"@, "G"@))
    } else if m == "dat"@ {
        Some(("dat"@, "D"@))
    } else if m == "acc"@ {
        Some(("acc"@, "A"@))
    } else if m == "voc"@ {
        Some(("voc"@, "V"@))
    } else {
        None
    }
}

/// Whether a marker names a case.
pub open spec fn is_case_marker(m: Seq<char>) -> bool {
    case_row_label(m) is Some
}

pub fn tense_marker(m: &str) -> (r: bool)
    ensures
        r == is_tense_marker(m@),
{
    str_eq(m, "present") || str_eq(m, "imperfect") || str_eq(m, "future") || str_eq(m, "aorist")
        || str_eq(m, "perfect") || str_eq(m, "pluperfect") || str_eq(m, "future_perfect")
}

pub fn voice_marker(m: &str) -> (r: bool)
    ensures
        r == is_voice_marker(m@),
{
    str_eq(m, "active") || str_eq(m, "middle") || str_eq(m, "passive")
}

pub fn mood_marker(m: &str) -> (r: bool)
    ensures
        r == is_mood_marker(m@),
{
    str_eq(m, "indicative") || str_eq(m, "subjunctive") || str_eq(m, "optative") || str_eq(m, "imperative")
        || str_eq(m, "infinitive") || str_eq(m, "participle")
}

/// The row key and label of a case marker (`nom` is `N` ...).
pub fn case_label(m: &str) -> (r: Option<(&'static str, &'static str)>)
    ensures
        match r {
            Some((k, l)) => case_row_label(m@) == Some((k@, l@)),
            None => case_row_label(m@) is None,
        },
{
    if str_eq(m, "nom") {
        Some(("nom", "N"))
    } else if str_eq(m, "gen") {
        Some(("gen", "G"))
    } else if str_eq(m, "dat") {
        Some(("dat", "D"))
    } else if str_eq(m, "acc") {
        Some(("acc", "A"))
    } else if str_eq(m, "voc") {
        Some(("voc", "V"))
    } else {
        None
    }
}

// ---------------------------------------------------------------------------
// The family of a paradigm
// ---------------------------------------------------------------------------

/// How the values of a case block are laid out, by their number.
#[derive(Clone, Copy, Debug, PartialEq, Eq, Structural)]
pub enum CaseWidth {
    /// One or two forms per case.
    Generic(usize),
    /// Singular, dual and plural.
    Nominal,
    /// Common and neuter, for each number.
    GenderedSix,
    /// Masculine, feminine and neuter, for each number.
    GenderedNine,
}

/// The layout of a case block with `n` values; none for an unsupported count.
pub open spec fn case_width(n: nat) -> Option<CaseWidth> {
    if n == 1 || n == 2 {
        Some(CaseWidth::Generic(n as usize))
    } else if 3 <= n <= 5 {
        Some(CaseWidth::Nominal)
    } else if 6 <= n <= 8 {
        Some(CaseWidth::GenderedSix)
    } else if 9 <= n <= 12 {
        Some(CaseWidth::GenderedNine)
    } else {
        None
    }
}

/// The layout of a case block with `n` values.
pub fn classify_case_width(n: usize) -> (r: Result<CaseWidth, ParseError>)
    ensures
        match r {
            Ok(w) => case_width(n as nat) == Some(w),
            Err(e) => case_width(n as nat) is None && e@ == ParseErrorView::UnsupportedCellCount(n as nat),
        },
{
    if n == 1 || n == 2 {
        Ok(CaseWidth::Generic(n))
    } else if 3 <= n && n <= 5 {
        Ok(CaseWidth::Nominal)
    } else if 6 <= n && n <= 8 {
        Ok(CaseWidth::GenderedSix)
    } else if 9 <= n && n <= 12 {
        Ok(CaseWidth::GenderedNine)
    } else {
        Err(ParseError::UnsupportedCellCount(n))
    }
}

/// The first marker of a block, or the empty text when it has none.
pub open spec fn first_marker(b: BlockView) -> Seq<char> {
    if b.markers.len() > 0 {
        b.markers[0]
    } else {
        Seq::empty()
    }
}

/// Whether some block has a tense or mood marker.
pub open spec fn has_verb_marker(blocks: Seq<BlockView>) -> bool {
    exists|i: int, j: int|
        0 <= i < blocks.len() && 0 <= j < blocks[i].markers.len() && (is_tense_marker(
            #[trigger] blocks[i].markers[j],
        ) || is_mood_marker(blocks[i].markers[j]))
}

/// Whether the block starts with a case marker.
pub open spec fn is_case_block(b: BlockView) -> bool {
    is_case_marker(first_marker(b))
}

/// The value count of the first case block whose count has no layout.
pub open spec fn first_bad_width(blocks: Seq<BlockView>) -> Option<nat>
    decreases blocks.len(),
{
    if blocks.len() == 0 {
        None
    } else if is_case_block(blocks[0]) && case_width(blocks[0].values.len()) is None {
        Some(blocks[0].values.len())
    } else {
        first_bad_width(blocks.drop_first())
    }
}

/// The family of a paradigm: a verb when a tense or mood occurs; otherwise a
/// nominal one, gendered when a case block has the width of a gendered
/// layout. A nominal text without case blocks, or with a case block of
/// unsupported width, is refused.
pub open spec fn family_of(blocks: Seq<BlockView>) -> Result<ParadigmFamily, ParseErrorView> {
    if has_verb_marker(blocks) {
        Ok(ParadigmFamily::Verb)
    } else {
        match first_bad_width(blocks) {
            Some(n) => Err(ParseErrorView::UnsupportedCellCount(n)),
            None => if !(exists|i: int| 0 <= i < blocks.len() && #[trigger] is_case_block(blocks[i])) {
                Err(ParseErrorView::NoCaseBlock)
            } else if exists|i: int|
                0 <= i < blocks.len() && #[trigger] is_case_block(blocks[i]) && (case_width(
                    blocks[i].values.len(),
                ) == Some(CaseWidth::GenderedSix) || case_width(blocks[i].values.len()) == Some(
                    CaseWidth::GenderedNine,
                )) {
                Ok(ParadigmFamily::GenderedNominal)
            } else {
                Ok(ParadigmFamily::Nominal)
            },
        }
    }
}

fn first_marker_of(b: &RawBlock) -> (r: &str)
    ensures
        r@ == first_marker(b@),
{
    if b.markers.len() > 0 {
        assert(b@.markers[0] == b.markers@[0]@);
        b.markers[0].as_str()
    } else {
        proof {
            reveal_strlit("");
        }
        assert(""@ =~= Seq::<char>::empty());
        ""
    }
}

/// The family of a paradigm, from its blocks.
pub fn detect_family(blocks: &Vec<RawBlock>) -> (r: Result<ParadigmFamily, ParseError>)
    ensures
        match (r, family_of(block_views(blocks@))) {
            (Ok(f), Ok(g)) => f == g,
            (Err(e), Err(ev)) => e@ == ev,
            _ => false,
        },
{
    let ghost bv = block_views(blocks@);
    let mut i: usize = 0;
    while i < blocks.len()
        invariant
            bv == block_views(blocks@),
            i <= bv.len(),
            forall|a: int, j: int|
                0 <= a < i && 0 <= j < bv[a].markers.len() ==> !is_tense_marker(#[trigger] bv[a].markers[j])
                    && !is_mood_marker(bv[a].markers[j]),
        decreases bv.len() - i,
    {
        let b = &blocks[i];
        assert(bv[i as int] == b@);
        let mut j: usize = 0;
        while j < b.markers.len()
            invariant
                bv == block_views(blocks@),
                i < bv.len(),
                bv[i as int] == b@,
                j <= b@.markers.len(),
                forall|k: int| 0 <= k < j ==> !is_tense_marker(#[trigger] b@.markers[k]) && !is_mood_marker(b@.markers[k]),
            decreases b@.markers.len() - j,
        {
            let m = b.markers[j].as_str();
            assert(b@.markers[j as int] == m@);
            if tense_marker(m) || mood_marker(m) {
                assert(is_tense_marker(bv[i as int].markers[j as int]) || is_mood_marker(bv[i as int].markers[j as int]));
                return Ok(ParadigmFamily::Verb);
            }
            j = j + 1;
        }
        i = i + 1;
    }
    assert(!has_verb_marker(bv));
    let mut any_case = false;
    let mut gendered = false;
    let mut k: usize = 0;
    assert(bv.skip(0) =~= bv);
    while k < blocks.len()
        invariant
            bv == block_views(blocks@),
            !has_verb_marker(bv),
            k <= bv.len(),
            first_bad_width(bv) == first_bad_width(bv.skip(k as int)),
            any_case == exists|a: int| 0 <= a < k && #[trigger] is_case_block(bv[a]),
            gendered == exists|a: int|
                0 <= a < k && #[trigger] is_case_block(bv[a]) && (case_width(bv[a].values.len()) == Some(
                    CaseWidth::GenderedSix,
                ) || case_width(bv[a].values.len()) == Some(CaseWidth::GenderedNine)),
        decreases bv.len() - k,
    {
        let b = &blocks[k];
        assert(bv[k as int] == b@);
        assert(bv.skip(k as int)[0] == b@);
        assert(bv.skip(k as int).drop_first() =~= bv.skip(k + 1));
        let m = first_marker_of(b);
        let ghost g_before = gendered;
        let ghost c_before = any_case;
        if case_label(m).is_some() {
            assert(is_case_block(bv[k as int]));
            match classify_case_width(b.values.len()) {
                Err(e) => {
                    assert(first_bad_width(bv.skip(k as int)) == Some(b@.values.len()));
                    return Err(e);
                },
                Ok(w) => {
                    any_case = true;
                    if w == CaseWidth::GenderedSix || w == CaseWidth::GenderedNine {
                        gendered = true;
                    }
                },
            }
            proof {
                assert(any_case == exists|a: int| 0 <= a < k + 1 && #[trigger] is_case_block(bv[a]));
                let gen_k = case_width(bv[k as int].values.len()) == Some(CaseWidth::GenderedSix) || case_width(
                    bv[k as int].values.len(),
                ) == Some(CaseWidth::GenderedNine);
                if gen_k {
                    assert(gendered);
                } else {
                    assert(gendered == g_before);
                }
            }
        } else {
            assert(!is_case_block(bv[k as int]));
        }
        k = k + 1;
    }
    assert(bv.skip(k as int) =~= Seq::<BlockView>::empty());
    if !any_case {
        Err(ParseError::NoCaseBlock)
    } else if gendered {
        Ok(ParadigmFamily::GenderedNominal)
    } else {
        Ok(ParadigmFamily::Nominal)
    }
}


// ---------------------------------------------------------------------------
// Cells, rows and columns
// ---------------------------------------------------------------------------

/// The alternatives that a cell text lists: its pieces between commas when it
/// has a comma, between slashes otherwise, trimmed, empty ones left out.
pub open spec fn alternatives_of(value: Seq<char>) -> Seq<Seq<char>> {
    trimmed_pieces(
        split_set(value, if contains_seq(value, ","@) { CharSet::Comma } else { CharSet::Slash }),
    )
}

/// A cell of the given column holding `value`.
pub open spec fn cell_of(key: Seq<char>, label: Seq<char>, value: Seq<char>) -> ParadigmCellView {
    ParadigmCellView { column_key: key, column_label: label, value, alternatives: alternatives_of(value) }
}

/// Column definitions: key and label.
pub open spec fn defs_view(d: Seq<(String, String)>) -> Seq<(Seq<char>, Seq<char>)> {
    d.map_values(|e: (String, String)| (e.0@, e.1@))
}

/// The columns of the definitions.
pub open spec fn columns_of(defs: Seq<(Seq<char>, Seq<char>)>) -> Seq<ParadigmColumnView> {
    defs.map_values(|d: (Seq<char>, Seq<char>)| ParadigmColumnView { key: d.0, label: d.1 })
}

/// The cells of the values under the columns, pairing them in order as far
/// as both go.
pub open spec fn zipped_cells(defs: Seq<(Seq<char>, Seq<char>)>, values: Seq<Seq<char>>) -> Seq<ParadigmCellView> {
    Seq::new(
        if defs.len() < values.len() { defs.len() } else { values.len() },
        |i: int| cell_of(defs[i].0, defs[i].1, values[i]),
    )
}

/// Singular, dual, plural.
pub open spec fn number_columns() -> Seq<(Seq<char>, Seq<char>)> {
    seq![("sg"@, "Singular"@), ("du"@, "Dual"@), ("pl"@, "Plural"@)]
}

/// Masculine, feminine, neuter.
pub open spec fn gender_columns() -> Seq<(Seq<char>, Seq<char>)> {
    seq![("masc"@, "M"@), ("fem"@, "F"@), ("neut"@, "N"@)]
}

/// Common and neuter.
pub open spec fn common_neuter_columns() -> Seq<(Seq<char>, Seq<char>)> {
    seq![("common"@, "Common"@), ("neut"@, "Neuter"@)]
}

/// Adverb, comparative, superlative.
pub open spec fn derivative_columns() -> Seq<(Seq<char>, Seq<char>)> {
    seq![("adverb"@, "Adverb"@), ("comparative"@, "Comparative"@), ("superlative"@, "Superlative"@)]
}

fn def(key: &str, label: &str) -> (r: (String, String))
    ensures
        (r.0@, r.1@) == (key@, label@),
{
    (string_from_str(key), string_from_str(label))
}

fn number_defs() -> (r: Vec<(String, String)>)
    ensures
        defs_view(r@) == number_columns(),
{
    let r = vec![def("sg", "Singular"), def("du", "Dual"), def("pl", "Plural")];
    assert(defs_view(r@) =~= number_columns());
    r
}

fn gender_defs() -> (r: Vec<(String, String)>)
    ensures
        defs_view(r@) == gender_columns(),
{
    let r = vec![def("masc", "M"), def("fem", "F"), def("neut", "N")];
    assert(defs_view(r@) =~= gender_columns());
    r
}

fn common_neuter_defs() -> (r: Vec<(String, String)>)
    ensures
        defs_view(r@) == common_neuter_columns(),
{
    let r = vec![def("common", "Common"), def("neut", "Neuter")];
    assert(defs_view(r@) =~= common_neuter_columns());
    r
}

fn derivative_defs() -> (r: Vec<(String, String)>)
    ensures
        defs_view(r@) == derivative_columns(),
{
    let r = vec![def("adverb", "Adverb"), def("comparative", "Comparative"), def("superlative", "Superlative")];
    assert(defs_view(r@) =~= derivative_columns());
    r
}

/// The alternatives that a cell text lists.
pub fn split_alternatives(value: &str) -> (r: Vec<String>)
    ensures
        r.deep_view() == alternatives_of(value@),
{
    let chars = chars_of(value);
    let set = if str_contains(value, ",") { CharSet::Comma } else { CharSet::Slash };
    let pieces = split_chars_on(chars.as_slice(), set);
    trim_pieces(&pieces)
}

/// A cell of the given column holding `value`, with the alternatives it lists.
pub fn make_cell(key: &str, label: &str, value: &str) -> (c: ParadigmCell)
    ensures
        c@ == cell_of(key@, label@, value@),
{
    ParadigmCell {
        column_key: string_from_str(key),
        column_label: string_from_str(label),
        value: string_from_str(value),
        alternatives: split_alternatives(value),
    }
}

fn make_columns(defs: &Vec<(String, String)>) -> (r: Vec<ParadigmColumn>)
    ensures
        r@.map_values(|c: ParadigmColumn| c@) == columns_of(defs_view(defs@)),
{
    let mut out: Vec<ParadigmColumn> = Vec::new();
    let mut i: usize = 0;
    while i < defs.len()
        invariant
            i <= defs@.len(),
            out@.map_values(|c: ParadigmColumn| c@) == columns_of(defs_view(defs@)).take(i as int),
        decreases defs@.len() - i,
    {
        let ghost before = out@.map_values(|c: ParadigmColumn| c@);
        let c = ParadigmColumn { key: defs[i].0.clone(), label: defs[i].1.clone() };
        out.push(c);
        assert(out@.map_values(|c: ParadigmColumn| c@) =~= before.push(c@));
        i = i + 1;
        assert(out@.map_values(|c: ParadigmColumn| c@) =~= columns_of(defs_view(defs@)).take(i as int));
    }
    assert(columns_of(defs_view(defs@)).take(i as int) =~= columns_of(defs_view(defs@)));
    out
}

fn make_cells(defs: &Vec<(String, String)>, values: &[String]) -> (r: Vec<ParadigmCell>)
    ensures
        r@.map_values(|c: ParadigmCell| c@) == zipped_cells(defs_view(defs@), values.deep_view()),
{
    let n = if defs.len() < values.len() { defs.len() } else { values.len() };
    let ghost z = zipped_cells(defs_view(defs@), values.deep_view());
    let mut out: Vec<ParadigmCell> = Vec::new();
    let mut i: usize = 0;
    while i < n
        invariant
            z == zipped_cells(defs_view(defs@), values.deep_view()),
            n == z.len(),
            n <= defs@.len(),
            n <= values@.len(),
            i <= n,
            out@.map_values(|c: ParadigmCell| c@) == z.take(i as int),
        decreases n - i,
    {
        let ghost before = out@.map_values(|c: ParadigmCell| c@);
        let c = make_cell(defs[i].0.as_str(), defs[i].1.as_str(), values[i].as_str());
        out.push(c);
        assert(out@.map_values(|c: ParadigmCell| c@) =~= before.push(c@));
        i = i + 1;
        assert(out@.map_values(|c: ParadigmCell| c@) =~= z.take(i as int));
    }
    assert(z.take(i as int) =~= z);
    out
}

/// The row of a case block: refused when the values do not fill the columns
/// or the marker is not a case.
pub open spec fn case_row(
    marker: Seq<char>,
    values: Seq<Seq<char>>,
    defs: Seq<(Seq<char>, Seq<char>)>,
) -> Result<ParadigmRowView, ParseErrorView> {
    if values.len() != defs.len() {
        Err(ParseErrorView::CaseValueCount(marker, defs.len(), values.len()))
    } else {
        match case_row_label(marker) {
            None => Err(ParseErrorView::UnknownCaseMarker(marker)),
            Some((key, label)) => Ok(ParadigmRowView { key, label, cells: zipped_cells(defs, values) }),
        }
    }
}

fn make_case_row(marker: &str, values: &[String], defs: &Vec<(String, String)>) -> (r: Result<ParadigmRow, ParseError>)
    ensures
        match (r, case_row(marker@, values.deep_view(), defs_view(defs@))) {
            (Ok(x), Ok(v)) => x@ == v,
            (Err(e), Err(ev)) => e@ == ev,
            _ => false,
        },
{
    if values.len() != defs.len() {
        return Err(ParseError::CaseValueCount(string_from_str(marker), defs.len(), values.len()));
    }
    match case_label(marker) {
        None => Err(ParseError::UnknownCaseMarker(string_from_str(marker))),
        Some((key, label)) => {
            let cells = make_cells(defs, values);
            Ok(ParadigmRow { key: string_from_str(key), label: string_from_str(label), cells })
        },
    }
}

/// A heading under an optional prefix: `prefix | base`.
pub open spec fn heading_with(prefix: Option<Seq<char>>, base: Seq<char>) -> Seq<char> {
    match prefix {
        Some(p) => p + " | "@ + base,
        None => base,
    }
}

fn make_heading(prefix: &Option<String>, base: &str) -> (r: String)
    ensures
        r@ == heading_with(
            match prefix {
                Some(p) => Some(p@),
                None => None,
            },
            base@,
        ),
{
    match prefix {
        Some(p) => {
            let mut r = p.clone();
            r.append(" | ");
            r.append(base);
            r
        },
        None => string_from_str(base),
    }
}

/// The view of an optional text.
pub open spec fn opt_text(o: Option<String>) -> Option<Seq<char>> {
    match o {
        Some(p) => Some(p@),
        None => None,
    }
}

/// The table of derived forms.
pub open spec fn derivatives_table(values: Seq<Seq<char>>, heading: Seq<char>) -> ParadigmTableView {
    ParadigmTableView {
        kind: "derivatives"@,
        heading,
        columns: columns_of(derivative_columns()),
        rows: seq![ParadigmRowView { key: "der"@, label: "Derived"@, cells: zipped_cells(derivative_columns(), values) }],
    }
}

fn make_derivatives_table(values: &[String], heading: String) -> (t: ParadigmTable)
    ensures
        t@ == derivatives_table(values.deep_view(), heading@),
{
    let defs = derivative_defs();
    let cells = make_cells(&defs, values);
    let row = ParadigmRow { key: string_from_str("der"), label: string_from_str("Derived"), cells };
    let columns = make_columns(&defs);
    let mut rows: Vec<ParadigmRow> = Vec::new();
    rows.push(row);
    let t = ParadigmTable { kind: string_from_str("derivatives"), heading, columns, rows };
    assert(t@.rows =~= seq![row@]);
    t
}


// ---------------------------------------------------------------------------
// Groups of case blocks
// ---------------------------------------------------------------------------

/// The rows of the first `n` blocks, the values of block `i` being
/// `vals(i)`; the first refused row refuses them all.
pub open spec fn rows_upto(
    blocks: Seq<BlockView>,
    defs: Seq<(Seq<char>, Seq<char>)>,
    vals: spec_fn(int) -> Seq<Seq<char>>,
    n: nat,
) -> Result<Seq<ParadigmRowView>, ParseErrorView>
    decreases n,
{
    if n == 0 {
        Ok(Seq::empty())
    } else {
        match rows_upto(blocks, defs, vals, (n - 1) as nat) {
            Err(e) => Err(e),
            Ok(rows) => match case_row(blocks[n - 1].markers[0], vals(n - 1), defs) {
                Err(e) => Err(e),
                Ok(r) => Ok(rows.push(r)),
            },
        }
    }
}

/// The values of the blocks as they stand.
pub open spec fn whole_values(blocks: Seq<BlockView>) -> spec_fn(int) -> Seq<Seq<char>> {
    |i: int| blocks[i].values
}

/// The values of block `i`, the last block cut to `width` values: what it
/// holds beyond them are derived forms.
pub open spec fn case_values(blocks: Seq<BlockView>, i: int, width: nat) -> Seq<Seq<char>> {
    if i == blocks.len() - 1 && blocks[i].values.len() > width {
        blocks[i].values.take(width as int)
    } else {
        blocks[i].values
    }
}

/// The values of the blocks, the last one cut to `width` values.
pub open spec fn cut_values(blocks: Seq<BlockView>, width: nat) -> spec_fn(int) -> Seq<Seq<char>> {
    |i: int| case_values(blocks, i, width)
}

/// The slice `start .. start + per` of the values of the blocks, the last one
/// cut to `width` values first.
pub open spec fn sliced_values(blocks: Seq<BlockView>, width: nat, start: int, per: int) -> spec_fn(int) -> Seq<Seq<char>> {
    |i: int| case_values(blocks, i, width).subrange(start, start + per)
}

/// The derived forms that follow the last block's `width` values.
pub open spec fn trailing_forms(blocks: Seq<BlockView>, width: nat) -> Seq<Seq<char>> {
    if blocks.len() > 0 && blocks.last().values.len() > width {
        blocks.last().values.skip(width as int)
    } else {
        Seq::empty()
    }
}

/// The column definitions of an irregular nominal table with `w` forms.
pub open spec fn generic_columns(w: nat) -> Seq<(Seq<char>, Seq<char>)> {
    if w == 1 {
        seq![("form"@, "Form"@)]
    } else {
        Seq::new(w, |i: int| ("form_"@ + decimal(i + 1), "Form "@ + decimal(i + 1)))
    }
}

/// An irregular nominal group: one table with a column per form.
pub open spec fn generic_group(blocks: Seq<BlockView>, w: nat, prefix: Option<Seq<char>>) -> Result<
    Seq<ParadigmTableView>,
    ParseErrorView,
> {
    match rows_upto(blocks, generic_columns(w), whole_values(blocks), blocks.len()) {
        Err(e) => Err(e),
        Ok(rows) => Ok(
            seq![
                ParadigmTableView {
                    kind: "nominal_irregular"@,
                    heading: heading_with(prefix, "Nominal paradigm"@),
                    columns: columns_of(generic_columns(w)),
                    rows,
                },
            ],
        ),
    }
}

/// A nominal group: one table by number, then the derived forms that follow
/// the last block's three values, if any.
pub open spec fn nominal_group(blocks: Seq<BlockView>, prefix: Option<Seq<char>>) -> Result<
    Seq<ParadigmTableView>,
    ParseErrorView,
> {
    match rows_upto(blocks, number_columns(), cut_values(blocks, 3), blocks.len()) {
        Err(e) => Err(e),
        Ok(rows) => {
            let table = ParadigmTableView {
                kind: "nominal"@,
                heading: heading_with(prefix, "Nominal paradigm"@),
                columns: columns_of(number_columns()),
                rows,
            };
            let trailing = trailing_forms(blocks, 3);
            if trailing.len() > 0 {
                Ok(seq![table, derivatives_table(trailing, heading_with(prefix, "Derived forms"@))])
            } else {
                Ok(seq![table])
            }
        },
    }
}

/// The gender columns of a gendered group of the given width.
pub open spec fn gendered_columns(width: nat) -> Seq<(Seq<char>, Seq<char>)> {
    if width == 9 {
        gender_columns()
    } else {
        common_neuter_columns()
    }
}

/// The table of one number of a gendered group: the slice of each block's
/// values that belongs to that number.
pub open spec fn gendered_table(
    blocks: Seq<BlockView>,
    width: nat,
    number: int,
    prefix: Option<Seq<char>>,
) -> Result<ParadigmTableView, ParseErrorView> {
    let per = gendered_columns(width).len();
    match rows_upto(blocks, gendered_columns(width), sliced_values(blocks, width, number * per, per as int), blocks.len()) {
        Err(e) => Err(e),
        Ok(rows) => Ok(
            ParadigmTableView {
                kind: "gendered_nominal"@,
                heading: heading_with(prefix, number_columns()[number].1 + " forms"@),
                columns: columns_of(gendered_columns(width)),
                rows,
            },
        ),
    }
}

/// A gendered group: a table per number, then the derived forms that follow
/// the last block's values, if any.
pub open spec fn gendered_group(blocks: Seq<BlockView>, width: nat, prefix: Option<Seq<char>>) -> Result<
    Seq<ParadigmTableView>,
    ParseErrorView,
> {
    match gendered_table(blocks, width, 0, prefix) {
        Err(e) => Err(e),
        Ok(t0) => match gendered_table(blocks, width, 1, prefix) {
            Err(e) => Err(e),
            Ok(t1) => match gendered_table(blocks, width, 2, prefix) {
                Err(e) => Err(e),
                Ok(t2) => {
                    let trailing = trailing_forms(blocks, width);
                    if trailing.len() > 0 {
                        Ok(seq![t0, t1, t2, derivatives_table(trailing, heading_with(prefix, "Derived forms"@))])
                    } else {
                        Ok(seq![t0, t1, t2])
                    }
                },
            },
        },
    }
}

/// The tables of a group of case blocks of one layout.
pub open spec fn case_group(blocks: Seq<BlockView>, w: CaseWidth, prefix: Option<Seq<char>>) -> Result<
    Seq<ParadigmTableView>,
    ParseErrorView,
> {
    match w {
        CaseWidth::Generic(n) => generic_group(blocks, n as nat, prefix),
        CaseWidth::Nominal => nominal_group(blocks, prefix),
        CaseWidth::GenderedSix => gendered_group(blocks, 6, prefix),
        CaseWidth::GenderedNine => gendered_group(blocks, 9, prefix),
    }
}

/// The view of a result of tables.
pub open spec fn tables_result(r: Result<Vec<ParadigmTable>, ParseError>) -> Result<Seq<ParadigmTableView>, ParseErrorView> {
    match r {
        Ok(t) => Ok(table_views(t@)),
        Err(e) => Err(e@),
    }
}

/// The view of a result of rows.
pub open spec fn rows_result(r: Result<Vec<ParadigmRow>, ParseError>) -> Result<Seq<ParadigmRowView>, ParseErrorView> {
    match r {
        Ok(t) => Ok(paradigm_row_views(t@)),
        Err(e) => Err(e@),
    }
}

fn copy_strings(v: &[String]) -> (r: Vec<String>)
    ensures
        r.deep_view() == v.deep_view(),
{
    let mut out: Vec<String> = Vec::new();
    let mut i: usize = 0;
    while i < v.len()
        invariant
            i <= v@.len(),
            out.deep_view() == v.deep_view().take(i as int),
        decreases v@.len() - i,
    {
        let ghost before = out.deep_view();
        out.push(v[i].clone());
        assert(out.deep_view() =~= before.push(v[i as int]@));
        i = i + 1;
        assert(out.deep_view() =~= v.deep_view().take(i as int));
    }
    assert(v.deep_view().take(i as int) =~= v.deep_view());
    out
}

fn copy_range(v: &[String], from: usize, to: usize) -> (r: Vec<String>)
    requires
        from <= to <= v@.len(),
    ensures
        r.deep_view() == v.deep_view().subrange(from as int, to as int),
{
    let mut out: Vec<String> = Vec::new();
    let mut i: usize = from;
    while i < to
        invariant
            from <= i <= to <= v@.len(),
            out.deep_view() == v.deep_view().subrange(from as int, i as int),
        decreases to - i,
    {
        let ghost before = out.deep_view();
        out.push(v[i].clone());
        assert(out.deep_view() =~= before.push(v[i as int]@));
        i = i + 1;
        assert(out.deep_view() =~= v.deep_view().subrange(from as int, i as int));
    }
    out
}

/// Whether every block of the range starts with a marker.
pub open spec fn marked(blocks: Seq<BlockView>) -> bool {
    forall|i: int| 0 <= i < blocks.len() ==> #[trigger] blocks[i].markers.len() > 0
}

/// The values of block `i` of the group as the group's rows take them.
pub enum RowValues {
    Whole,
    CutLast(usize),
    Slice(usize, usize, usize),
}

proof fn lemma_rows_upto_err(
    blocks: Seq<BlockView>,
    defs: Seq<(Seq<char>, Seq<char>)>,
    vals: spec_fn(int) -> Seq<Seq<char>>,
    n: nat,
    m: nat,
)
    requires
        n <= m,
        rows_upto(blocks, defs, vals, n) is Err,
    ensures
        rows_upto(blocks, defs, vals, m) == rows_upto(blocks, defs, vals, n),
    decreases m,
{
    if n < m {
        lemma_rows_upto_err(blocks, defs, vals, n, (m - 1) as nat);
    }
}

/// The values that a row of block `i` takes.
pub open spec fn row_values(blocks: Seq<BlockView>, how: RowValues) -> spec_fn(int) -> Seq<Seq<char>> {
    match how {
        RowValues::Whole => whole_values(blocks),
        RowValues::CutLast(w) => cut_values(blocks, w as nat),
        RowValues::Slice(w, start, per) => sliced_values(blocks, w as nat, start as int, per as int),
    }
}

fn make_rows(
    blocks: &Vec<RawBlock>,
    start: usize,
    end: usize,
    defs: &Vec<(String, String)>,
    how: RowValues,
) -> (r: Result<Vec<ParadigmRow>, ParseError>)
    requires
        start < end <= blocks@.len(),
        marked(block_views(blocks@).subrange(start as int, end as int)),
        match how {
            RowValues::Slice(w, from, per) => forall|i: int|
                start <= i < end ==> #[trigger] blocks@[i].values@.len() >= w && from + per <= w,
            _ => true,
        },
    ensures
        rows_result(r) == rows_upto(
            block_views(blocks@).subrange(start as int, end as int),
            defs_view(defs@),
            row_values(block_views(blocks@).subrange(start as int, end as int), how),
            (end - start) as nat,
        ),
{
    let ghost g = block_views(blocks@).subrange(start as int, end as int);
    let ghost vals = row_values(g, how);
    let ghost dv = defs_view(defs@);
    let mut rows: Vec<ParadigmRow> = Vec::new();
    let mut i: usize = start;
    assert(paradigm_row_views(rows@) =~= Seq::<ParadigmRowView>::empty());
    while i < end
        invariant
            start <= i <= end <= blocks@.len(),
            g == block_views(blocks@).subrange(start as int, end as int),
            vals == row_values(g, how),
            dv == defs_view(defs@),
            marked(g),
            match how {
                RowValues::Slice(w, from, per) => forall|k: int|
                    start <= k < end ==> #[trigger] blocks@[k].values@.len() >= w && from + per <= w,
                _ => true,
            },
            rows_upto(g, dv, vals, (i - start) as nat) == Ok::<Seq<ParadigmRowView>, ParseErrorView>(
                paradigm_row_views(rows@),
            ),
        decreases end - i,
    {
        let b = &blocks[i];
        let ghost k = i - start;
        assert(g[k] == b@);
        assert(g[k].markers.len() > 0);
        assert(b@.markers[0] == b.markers@[0]@);
        let last = i + 1 == end;
        let values: Vec<String> = match how {
            RowValues::Whole => copy_strings(b.values.as_slice()),
            RowValues::CutLast(w) => {
                if last && b.values.len() > w {
                    copy_range(b.values.as_slice(), 0, w)
                } else {
                    copy_strings(b.values.as_slice())
                }
            },
            RowValues::Slice(w, from, per) => {
                assert(b.values@.len() >= w);
                if last && b.values.len() > w {
                    assert(b.values.deep_view().take(w as int).subrange(from as int, from + per) =~= b.values.deep_view().subrange(from as int, from + per));
                } else {
                }
                copy_range(b.values.as_slice(), from, from + per)
            },
        };
        assert(values.deep_view() == vals(k)) by {
            assert(b.values.deep_view() == g[k].values);
            if last {
                assert(k == g.len() - 1);
            }
            match how {
                RowValues::CutLast(w) => {
                    if last && b.values@.len() > w {
                        assert(b.values.deep_view().subrange(0, w as int) =~= b.values.deep_view().take(w as int));
                    }
                },
                _ => {},
            }
        }
        match make_case_row(b.markers[0].as_str(), values.as_slice(), defs) {
            Err(e) => {
                proof {
                    lemma_rows_upto_err(g, dv, vals, (k + 1) as nat, (end - start) as nat);
                }
                return Err(e);
            },
            Ok(row) => {
                let ghost before = paradigm_row_views(rows@);
                rows.push(row);
                assert(paradigm_row_views(rows@) =~= before.push(row@));
            },
        }
        i = i + 1;
    }
    Ok(rows)
}


fn generic_defs(w: usize) -> (r: Vec<(String, String)>)
    requires
        1 <= w <= 2,
    ensures
        defs_view(r@) == generic_columns(w as nat),
{
    if w == 1 {
        let r = vec![def("form", "Form")];
        assert(defs_view(r@) =~= generic_columns(1));
        r
    } else {
        let r = vec![
            (prefixed_decimal("form_", 1), prefixed_decimal("Form ", 1)),
            (prefixed_decimal("form_", 2), prefixed_decimal("Form ", 2)),
        ];
        assert(defs_view(r@) =~= generic_columns(2));
        r
    }
}

fn single_table(t: ParadigmTable) -> (r: Vec<ParadigmTable>)
    ensures
        table_views(r@) == seq![t@],
{
    let mut r: Vec<ParadigmTable> = Vec::new();
    r.push(t);
    assert(table_views(r@) =~= seq![t@]);
    r
}

fn push_table(v: &mut Vec<ParadigmTable>, t: ParadigmTable)
    ensures
        table_views(final(v)@) == table_views(old(v)@).push(t@),
{
    v.push(t);
    assert(table_views(v@) =~= table_views(old(v)@).push(t@));
}

fn parse_generic_case_group(
    blocks: &Vec<RawBlock>,
    start: usize,
    end: usize,
    w: usize,
    prefix: &Option<String>,
) -> (r: Result<Vec<ParadigmTable>, ParseError>)
    requires
        start < end <= blocks@.len(),
        marked(block_views(blocks@).subrange(start as int, end as int)),
        1 <= w <= 2,
    ensures
        tables_result(r) == generic_group(block_views(blocks@).subrange(start as int, end as int), w as nat, opt_text(*prefix)),
{
    let defs = generic_defs(w);
    let rows = make_rows(blocks, start, end, &defs, RowValues::Whole);
    match rows {
        Err(e) => Err(e),
        Ok(rows) => {
            let t = ParadigmTable {
                kind: string_from_str("nominal_irregular"),
                heading: make_heading(prefix, "Nominal paradigm"),
                columns: make_columns(&defs),
                rows,
            };
            Ok(single_table(t))
        },
    }
}

fn parse_nominal_group(
    blocks: &Vec<RawBlock>,
    start: usize,
    end: usize,
    prefix: &Option<String>,
) -> (r: Result<Vec<ParadigmTable>, ParseError>)
    requires
        start < end <= blocks@.len(),
        marked(block_views(blocks@).subrange(start as int, end as int)),
    ensures
        tables_result(r) == nominal_group(block_views(blocks@).subrange(start as int, end as int), opt_text(*prefix)),
{
    let ghost g = block_views(blocks@).subrange(start as int, end as int);
    let defs = number_defs();
    let rows = make_rows(blocks, start, end, &defs, RowValues::CutLast(3));
    assert(row_values(g, RowValues::CutLast(3)) == cut_values(g, 3));
    assert(g.len() == end - start);
    assert(rows_result(rows) == rows_upto(g, number_columns(), cut_values(g, 3), g.len()));
    match rows {
        Err(e) => {
            Err(e)
        },
        Ok(rows) => {
            let t = ParadigmTable {
                kind: string_from_str("nominal"),
                heading: make_heading(prefix, "Nominal paradigm"),
                columns: make_columns(&defs),
                rows,
            };
            let mut tables = single_table(t);
            let last = &blocks[end - 1];
            assert(g.last() == last@);
            if last.values.len() > 3 {
                let trailing = copy_range(last.values.as_slice(), 3, last.values.len());
                assert(trailing.deep_view() =~= trailing_forms(g, 3));
                let d = make_derivatives_table(trailing.as_slice(), make_heading(prefix, "Derived forms"));
                push_table(&mut tables, d);
                assert(seq![t@].push(d@) =~= seq![t@, d@]);
            } else {
                assert(trailing_forms(g, 3).len() == 0);
            }
            Ok(tables)
        },
    }
}

fn number_label(n: usize) -> (r: &'static str)
    requires
        n < 3,
    ensures
        r@ == number_columns()[n as int].1,
{
    if n == 0 {
        "Singular"
    } else if n == 1 {
        "Dual"
    } else {
        "Plural"
    }
}

fn parse_gendered_table(
    blocks: &Vec<RawBlock>,
    start: usize,
    end: usize,
    nine: bool,
    number: usize,
    prefix: &Option<String>,
) -> (r: Result<ParadigmTable, ParseError>)
    requires
        start < end <= blocks@.len(),
        marked(block_views(blocks@).subrange(start as int, end as int)),
        number < 3,
        forall|i: int| start <= i < end ==> #[trigger] blocks@[i].values@.len() >= (if nine { 9usize } else { 6usize }),
    ensures
        match (r, gendered_table(
            block_views(blocks@).subrange(start as int, end as int),
            if nine { 9 } else { 6 },
            number as int,
            opt_text(*prefix),
        )) {
            (Ok(t), Ok(tv)) => t@ == tv,
            (Err(e), Err(ev)) => e@ == ev,
            _ => false,
        },
{
    let ghost g = block_views(blocks@).subrange(start as int, end as int);
    let width: usize = if nine { 9 } else { 6 };
    let defs = if nine { gender_defs() } else { common_neuter_defs() };
    let per = defs.len();
    assert(per == gendered_columns(width as nat).len());
    let how = RowValues::Slice(width, number * per, per);
    let rows = make_rows(blocks, start, end, &defs, how);
    match rows {
        Err(e) => Err(e),
        Ok(rows) => {
            let mut base = string_from_str(number_label(number));
            base.append(" forms");
            Ok(ParadigmTable {
                kind: string_from_str("gendered_nominal"),
                heading: make_heading(prefix, base.as_str()),
                columns: make_columns(&defs),
                rows,
            })
        },
    }
}

fn parse_gendered_group(
    blocks: &Vec<RawBlock>,
    start: usize,
    end: usize,
    nine: bool,
    prefix: &Option<String>,
) -> (r: Result<Vec<ParadigmTable>, ParseError>)
    requires
        start < end <= blocks@.len(),
        marked(block_views(blocks@).subrange(start as int, end as int)),
        forall|i: int| start <= i < end ==> #[trigger] blocks@[i].values@.len() >= (if nine { 9usize } else { 6usize }),
    ensures
        tables_result(r) == gendered_group(
            block_views(blocks@).subrange(start as int, end as int),
            if nine { 9 } else { 6 },
            opt_text(*prefix),
        ),
{
    let ghost g = block_views(blocks@).subrange(start as int, end as int);
    let width: usize = if nine { 9 } else { 6 };
    let t0 = match parse_gendered_table(blocks, start, end, nine, 0, prefix) {
        Err(e) => {
            return Err(e);
        },
        Ok(t) => t,
    };
    let t1 = match parse_gendered_table(blocks, start, end, nine, 1, prefix) {
        Err(e) => {
            return Err(e);
        },
        Ok(t) => t,
    };
    let t2 = match parse_gendered_table(blocks, start, end, nine, 2, prefix) {
        Err(e) => {
            return Err(e);
        },
        Ok(t) => t,
    };
    let mut tables = single_table(t0);
    push_table(&mut tables, t1);
    push_table(&mut tables, t2);
    assert(seq![t0@].push(t1@).push(t2@) =~= seq![t0@, t1@, t2@]);
    let last = &blocks[end - 1];
    assert(g.last() == last@);
    if last.values.len() > width {
        let trailing = copy_range(last.values.as_slice(), width, last.values.len());
        assert(trailing.deep_view() =~= trailing_forms(g, width as nat));
        let d = make_derivatives_table(trailing.as_slice(), make_heading(prefix, "Derived forms"));
        push_table(&mut tables, d);
        assert(seq![t0@, t1@, t2@].push(d@) =~= seq![t0@, t1@, t2@, d@]);
    } else {
        assert(trailing_forms(g, width as nat).len() == 0);
    }
    Ok(tables)
}

/// Whether every block of the range has the given layout.
pub open spec fn all_width(blocks: Seq<BlockView>, w: CaseWidth) -> bool {
    forall|i: int| 0 <= i < blocks.len() ==> case_width(#[trigger] blocks[i].values.len()) == Some(w)
}

fn parse_case_group(
    blocks: &Vec<RawBlock>,
    start: usize,
    end: usize,
    w: CaseWidth,
    prefix: &Option<String>,
) -> (r: Result<Vec<ParadigmTable>, ParseError>)
    requires
        start < end <= blocks@.len(),
        marked(block_views(blocks@).subrange(start as int, end as int)),
        all_width(block_views(blocks@).subrange(start as int, end as int), w),
    ensures
        tables_result(r) == case_group(block_views(blocks@).subrange(start as int, end as int), w, opt_text(*prefix)),
{
    let ghost g = block_views(blocks@).subrange(start as int, end as int);
    assert(case_width(g[0].values.len()) == Some(w));
    match w {
        CaseWidth::Generic(n) => parse_generic_case_group(blocks, start, end, n, prefix),
        CaseWidth::Nominal => parse_nominal_group(blocks, start, end, prefix),
        CaseWidth::GenderedSix => {
            assert forall|i: int| start <= i < end implies #[trigger] blocks@[i].values@.len() >= 6usize by {
                assert(g[i - start] == blocks@[i]@);
                assert(case_width(g[i - start].values.len()) == Some(w));
            }
            parse_gendered_group(blocks, start, end, false, prefix)
        },
        CaseWidth::GenderedNine => {
            assert forall|i: int| start <= i < end implies #[trigger] blocks@[i].values@.len() >= 9usize by {
                assert(g[i - start] == blocks@[i]@);
                assert(case_width(g[i - start].values.len()) == Some(w));
            }
            parse_gendered_group(blocks, start, end, true, prefix)
        },
    }
}


// ---------------------------------------------------------------------------
// Nominal paradigms
// ---------------------------------------------------------------------------

/// The label of a variant block, which heads the tables that follow it: its
/// marker in title case, then its values joined with ` / `.
pub open spec fn variant_label(b: BlockView) -> Seq<char> {
    let marker = title_case(trim(b.markers[0]));
    if b.values.len() == 0 {
        marker
    } else {
        marker + " "@ + trim(join_by(b.values, " / "@))
    }
}

/// The heading of derived forms that follow a group.
pub open spec fn derived_heading(pending: Option<Seq<char>>) -> Seq<char> {
    match pending {
        Some(l) => l + " derived forms"@,
        None => "Derived forms"@,
    }
}

/// Where the group of case blocks of layout `w` that goes on at block `j`
/// ends: at the first block that is no case block or has another layout. A
/// case block of unsupported width on the way is refused.
pub open spec fn group_end(blocks: Seq<BlockView>, j: nat, w: CaseWidth) -> Result<nat, ParseErrorView>
    decreases blocks.len() - j,
{
    if j >= blocks.len() {
        Ok(j)
    } else if !is_case_marker(trim(blocks[j as int].markers[0])) {
        Ok(j)
    } else {
        match case_width(blocks[j as int].values.len()) {
            None => Err(ParseErrorView::UnsupportedCellCount(blocks[j as int].values.len())),
            Some(w2) => if w2 != w {
                Ok(j)
            } else {
                group_end(blocks, j + 1, w)
            },
        }
    }
}

pub proof fn lemma_group_end(blocks: Seq<BlockView>, j: nat, w: CaseWidth)
    requires
        j <= blocks.len(),
    ensures
        group_end(blocks, j, w) matches Ok(e) ==> j <= e <= blocks.len() && forall|k: int|
            j <= k < e ==> case_width(#[trigger] blocks[k].values.len()) == Some(w),
    decreases blocks.len() - j,
{
    if j < blocks.len() && is_case_marker(trim(blocks[j as int].markers[0])) {
        if let Some(w2) = case_width(blocks[j as int].values.len()) {
            if w2 == w {
                lemma_group_end(blocks, j + 1, w);
            }
        }
    }
}

/// The tables of the case group that starts at block `index`, and the block
/// after it: the group is the case blocks of the first one's layout that
/// follow it, headed by the variant label; a derived-form block right after
/// it joins it.
pub open spec fn case_step(blocks: Seq<BlockView>, index: nat, pending: Option<Seq<char>>) -> Result<
    (Seq<ParadigmTableView>, nat),
    ParseErrorView,
> {
    let b = blocks[index as int];
    match case_width(b.values.len()) {
        None => Err(ParseErrorView::UnsupportedCellCount(b.values.len())),
        Some(w) => match group_end(blocks, index + 1, w) {
            Err(e) => Err(e),
            Ok(end) => match case_group(blocks.subrange(index as int, end as int), w, pending) {
                Err(e) => Err(e),
                Ok(group) => {
                    let with_derived = end < blocks.len() && trim(blocks[end as int].markers[0]) == "der"@;
                    if with_derived {
                        Ok(
                            (
                                group.push(derivatives_table(blocks[end as int].values, derived_heading(pending))),
                                end + 1,
                            ),
                        )
                    } else {
                        Ok((group, end))
                    }
                },
            },
        },
    }
}

pub proof fn lemma_case_step(blocks: Seq<BlockView>, index: nat, pending: Option<Seq<char>>)
    requires
        index < blocks.len(),
    ensures
        case_step(blocks, index, pending) matches Ok((t, next)) ==> index < next <= blocks.len(),
{
    if let Some(w) = case_width(blocks[index as int].values.len()) {
        lemma_group_end(blocks, index + 1, w);
    }
}

/// The tables of the blocks from `index` on, with the variant label that
/// heads the next group: derived-form blocks make their own table; a case
/// block starts a group (see `case_step`); any other block is a variant
/// label for the next group.
pub open spec fn nominal_tables_from(blocks: Seq<BlockView>, index: nat, pending: Option<Seq<char>>) -> Result<
    Seq<ParadigmTableView>,
    ParseErrorView,
>
    decreases blocks.len() - index,
{
    if index >= blocks.len() {
        Ok(Seq::empty())
    } else {
        let b = blocks[index as int];
        let marker = trim(b.markers[0]);
        if marker == "der"@ {
            prepended(
                seq![derivatives_table(b.values, "Derived forms"@)],
                nominal_tables_from(blocks, index + 1, pending),
            )
        } else if is_case_marker(marker) {
            match case_step(blocks, index, pending) {
                Err(e) => Err(e),
                Ok((tables, next)) => {
                    proof {
                        lemma_case_step(blocks, index, pending);
                    }
                    prepended(tables, nominal_tables_from(blocks, next, None))
                },
            }
        } else {
            nominal_tables_from(blocks, index + 1, Some(variant_label(b)))
        }
    }
}

/// The tables after `tables`, when the rest parses.
pub open spec fn prepended(tables: Seq<ParadigmTableView>, r: Result<Seq<ParadigmTableView>, ParseErrorView>) -> Result<
    Seq<ParadigmTableView>,
    ParseErrorView,
> {
    match r {
        Ok(rest) => Ok(tables + rest),
        Err(e) => Err(e),
    }
}

fn build_variant_label(b: &RawBlock) -> (r: String)
    requires
        b@.markers.len() > 0,
    ensures
        r@ == variant_label(b@),
{
    assert(b@.markers[0] == b.markers@[0]@);
    let m = trim_str(b.markers[0].as_str());
    let marker = title_case_str(m.as_str());
    if b.values.len() == 0 {
        marker
    } else {
        let joined = join_strings(b.values.as_slice(), " / ");
        let t = trim_str(joined.as_str());
        let mut r = marker;
        r.append(" ");
        r.append(t.as_str());
        r
    }
}

fn append_tables(tables: &mut Vec<ParadigmTable>, more: Vec<ParadigmTable>)
    ensures
        table_views(final(tables)@) == table_views(old(tables)@) + table_views(more@),
{
    let mut more = more;
    let ghost m = table_views(more@);
    tables.append(&mut more);
    assert(table_views(tables@) =~= table_views(old(tables)@) + m);
}

fn scan_group(blocks: &Vec<RawBlock>, start: usize, w: CaseWidth) -> (r: Result<usize, ParseError>)
    requires
        start < blocks@.len(),
        marked(block_views(blocks@)),
    ensures
        match (r, group_end(block_views(blocks@), (start + 1) as nat, w)) {
            (Ok(e), Ok(ev)) => e == ev,
            (Err(e), Err(ev)) => e@ == ev,
            _ => false,
        },
{
    let ghost bv = block_views(blocks@);
    let n = blocks.len();
    let mut index = start + 1;
    while index < n
        invariant
            bv == block_views(blocks@),
            n == bv.len(),
            marked(bv),
            start < index <= n,
            group_end(bv, (start + 1) as nat, w) == group_end(bv, index as nat, w),
        decreases n - index,
    {
        let nb = &blocks[index];
        assert(bv[index as int] == nb@);
        assert(nb@.markers.len() > 0);
        assert(nb@.markers[0] == nb.markers@[0]@);
        let next_marker = trim_str(nb.markers[0].as_str());
        if case_label(next_marker.as_str()).is_none() {
            return Ok(index);
        }
        match classify_case_width(nb.values.len()) {
            Err(e) => {
                return Err(e);
            },
            Ok(w2) => {
                if w2 != w {
                    return Ok(index);
                }
            },
        }
        index = index + 1;
    }
    Ok(index)
}

fn parse_case_step(blocks: &Vec<RawBlock>, index: usize, pending: &Option<String>) -> (r: Result<
    (Vec<ParadigmTable>, usize),
    ParseError,
>)
    requires
        index < blocks@.len(),
        marked(block_views(blocks@)),
    ensures
        match (r, case_step(block_views(blocks@), index as nat, opt_text(*pending))) {
            (Ok((t, next)), Ok((tv, nv))) => table_views(t@) == tv && next == nv,
            (Err(e), Err(ev)) => e@ == ev,
            _ => false,
        },
{
    let ghost bv = block_views(blocks@);
    let n = blocks.len();
    let b = &blocks[index];
    assert(bv[index as int] == b@);
    let w = match classify_case_width(b.values.len()) {
        Err(e) => {
            return Err(e);
        },
        Ok(w) => w,
    };
    let end = match scan_group(blocks, index, w) {
        Err(e) => {
            return Err(e);
        },
        Ok(end) => end,
    };
    proof {
        lemma_group_end(bv, (index + 1) as nat, w);
        assert(all_width(bv.subrange(index as int, end as int), w)) by {
            assert forall|i: int| 0 <= i < bv.subrange(index as int, end as int).len() implies case_width(
                #[trigger] bv.subrange(index as int, end as int)[i].values.len(),
            ) == Some(w) by {
                if i > 0 {
                    assert(bv.subrange(index as int, end as int)[i] == bv[index + i]);
                }
            }
        }
        assert(marked(bv.subrange(index as int, end as int))) by {
            assert forall|i: int| 0 <= i < bv.subrange(index as int, end as int).len() implies #[trigger] bv.subrange(
                index as int,
                end as int,
            )[i].markers.len() > 0 by {
                assert(bv.subrange(index as int, end as int)[i] == bv[index + i]);
            }
        }
    }
    let mut group = match parse_case_group(blocks, index, end, w, pending) {
        Err(e) => {
            return Err(e);
        },
        Ok(g) => g,
    };
    if end < n {
        let db = &blocks[end];
        assert(bv[end as int] == db@);
        assert(db@.markers.len() > 0);
        assert(db@.markers[0] == db.markers@[0]@);
        let dm = trim_str(db.markers[0].as_str());
        if str_eq(dm.as_str(), "der") {
            let heading = match pending {
                Some(label) => {
                    let mut h = label.clone();
                    h.append(" derived forms");
                    h
                },
                None => string_from_str("Derived forms"),
            };
            let d = make_derivatives_table(db.values.as_slice(), heading);
            push_table(&mut group, d);
            return Ok((group, end + 1));
        }
    }
    Ok((group, end))
}

fn parse_nominal_like_tables(blocks: &Vec<RawBlock>) -> (r: Result<Vec<ParadigmTable>, ParseError>)
    requires
        marked(block_views(blocks@)),
    ensures
        tables_result(r) == nominal_tables_from(block_views(blocks@), 0, None),
{
    let ghost bv = block_views(blocks@);
    let n = blocks.len();
    let mut tables: Vec<ParadigmTable> = Vec::new();
    let mut index: usize = 0;
    let mut pending: Option<String> = None;
    assert(table_views(tables@) =~= Seq::<ParadigmTableView>::empty());
    assert(prepended(Seq::empty(), nominal_tables_from(bv, 0, None)) == nominal_tables_from(bv, 0, None)) by {
        match nominal_tables_from(bv, 0, None) {
            Ok(rest) => {
                assert(Seq::<ParadigmTableView>::empty() + rest =~= rest);
            },
            Err(e) => {},
        }
    }
    while index < n
        invariant
            bv == block_views(blocks@),
            n == bv.len(),
            marked(bv),
            index <= n,
            nominal_tables_from(bv, 0, None) == prepended(table_views(tables@), nominal_tables_from(bv, index as nat, opt_text(pending))),
        decreases n - index,
    {
        let b = &blocks[index];
        assert(bv[index as int] == b@);
        assert(b@.markers.len() > 0);
        assert(b@.markers[0] == b.markers@[0]@);
        let marker = trim_str(b.markers[0].as_str());
        let ghost p = opt_text(pending);
        let ghost before = table_views(tables@);
        if str_eq(marker.as_str(), "der") {
            let d = make_derivatives_table(b.values.as_slice(), string_from_str("Derived forms"));
            push_table(&mut tables, d);
            proof {
                match nominal_tables_from(bv, (index + 1) as nat, p) {
                    Ok(rest) => {
                        assert(before + (seq![d@] + rest) =~= before.push(d@) + rest);
                    },
                    Err(e) => {},
                }
            }
            index = index + 1;
        } else if case_label(marker.as_str()).is_some() {
            proof {
                lemma_case_step(bv, index as nat, p);
            }
            match parse_case_step(blocks, index, &pending) {
                Err(e) => {
                    return Err(e);
                },
                Ok((group, next)) => {
                    let ghost gv = table_views(group@);
                    append_tables(&mut tables, group);
                    proof {
                        match nominal_tables_from(bv, next as nat, None) {
                            Ok(x) => {
                                assert(before + (gv + x) =~= table_views(tables@) + x);
                            },
                            Err(e) => {},
                        }
                    }
                    pending = None;
                    index = next;
                },
            }
        } else {
            let label = build_variant_label(b);
            pending = Some(label);
            index = index + 1;
        }
    }
    proof {
        assert(table_views(tables@) + Seq::<ParadigmTableView>::empty() =~= table_views(tables@));
    }
    Ok(tables)
}


// ---------------------------------------------------------------------------
// Verb paradigms
// ---------------------------------------------------------------------------

/// The kinds of marker of a verb block.
#[derive(Clone, Copy)]
pub enum MarkerKind {
    Tense,
    Voice,
    Mood,
    Variant,
}

/// Whether a marker is of the given kind; a variant is any other marker.
pub open spec fn of_kind(kind: MarkerKind, m: Seq<char>) -> bool {
    match kind {
        MarkerKind::Tense => is_tense_marker(m),
        MarkerKind::Voice => is_voice_marker(m),
        MarkerKind::Mood => is_mood_marker(m),
        MarkerKind::Variant => !is_tense_marker(m) && !is_voice_marker(m) && !is_mood_marker(m),
    }
}

/// The markers of the given kind, in order.
pub open spec fn kept_markers(ms: Seq<Seq<char>>, kind: MarkerKind) -> Seq<Seq<char>>
    decreases ms.len(),
{
    if ms.len() == 0 {
        Seq::empty()
    } else if of_kind(kind, ms.last()) {
        kept_markers(ms.drop_last(), kind).push(ms.last())
    } else {
        kept_markers(ms.drop_last(), kind)
    }
}

/// The tense and voices in force after the first `n` blocks: a block with a
/// tense marker sets the tense to its last one, a block with voice markers
/// sets the voices to them.
pub open spec fn verb_state(blocks: Seq<BlockView>, n: nat) -> (Option<Seq<char>>, Seq<Seq<char>>)
    decreases n,
{
    if n == 0 {
        (None, Seq::empty())
    } else {
        let prev = verb_state(blocks, (n - 1) as nat);
        let b = blocks[n - 1];
        let tenses = kept_markers(b.markers, MarkerKind::Tense);
        let voices = kept_markers(b.markers, MarkerKind::Voice);
        (
            if tenses.len() > 0 { Some(tenses.last()) } else { prev.0 },
            if voices.len() > 0 { voices } else { prev.1 },
        )
    }
}

/// The heading of a verb table: tense, variants, voices (joined with ` / `)
/// and mood, each in title case, joined with ` | `.
pub open spec fn verb_heading(
    tense: Option<Seq<char>>,
    variants: Seq<Seq<char>>,
    voices: Seq<Seq<char>>,
    mood: Seq<char>,
) -> Seq<char> {
    let t = match tense {
        Some(x) => seq![title_case(x)],
        None => Seq::empty(),
    };
    let v = if voices.len() > 0 {
        seq![join_by(voices.map_values(|x: Seq<char>| title_case(x)), " / "@)]
    } else {
        Seq::empty()
    };
    join_by(t + variants.map_values(|x: Seq<char>| title_case(x)) + v + seq![title_case(mood)], " | "@)
}

/// The person and number of each value of a finite block, by layout.
pub open spec fn finite_slots() -> Seq<(Seq<char>, Seq<char>)> {
    seq![
        ("1"@, "Singular"@),
        ("2"@, "Singular"@),
        ("3"@, "Singular"@),
        ("2"@, "Dual"@),
        ("3"@, "Dual"@),
        ("1"@, "Plural"@),
        ("2"@, "Plural"@),
        ("3"@, "Plural"@),
    ]
}

pub open spec fn finite_compact_slots() -> Seq<(Seq<char>, Seq<char>)> {
    seq![
        ("1"@, "Singular"@),
        ("2"@, "Singular"@),
        ("3"@, "Singular"@),
        ("1"@, "Plural"@),
        ("2"@, "Plural"@),
        ("3"@, "Plural"@),
    ]
}

pub open spec fn imperative_slots() -> Seq<(Seq<char>, Seq<char>)> {
    seq![("2"@, "Singular"@), ("3"@, "Singular"@), ("2"@, "Dual"@), ("3"@, "Dual"@), ("2"@, "Plural"@), ("3"@, "Plural"@)]
}

pub open spec fn imperative_compact_slots() -> Seq<(Seq<char>, Seq<char>)> {
    seq![("2"@, "Singular"@), ("3"@, "Singular"@), ("2"@, "Plural"@), ("3"@, "Plural"@)]
}

/// The layout of a finite block with `n` values, if it has one.
pub open spec fn slots_for(n: nat, imperative: bool) -> Option<Seq<(Seq<char>, Seq<char>)>> {
    if imperative {
        if n == 6 {
            Some(imperative_slots())
        } else if n == 4 {
            Some(imperative_compact_slots())
        } else {
            None
        }
    } else {
        if n == 8 {
            Some(finite_slots())
        } else if n == 6 {
            Some(finite_compact_slots())
        } else {
            None
        }
    }
}

/// The first slot of the given person and number.
pub open spec fn first_slot(slots: Seq<(Seq<char>, Seq<char>)>, person: Seq<char>, number: Seq<char>) -> Option<int>
    decreases slots.len(),
{
    if slots.len() == 0 {
        None
    } else if slots[0].0 == person && slots[0].1 == number {
        Some(0)
    } else {
        match first_slot(slots.drop_first(), person, number) {
            Some(k) => Some(k + 1),
            None => None,
        }
    }
}

/// The value of the given person and number, `-` when the layout has none.
pub open spec fn slot_value(
    slots: Seq<(Seq<char>, Seq<char>)>,
    values: Seq<Seq<char>>,
    person: Seq<char>,
    number: Seq<char>,
) -> Seq<char> {
    match first_slot(slots, person, number) {
        Some(i) => values[i],
        None => "-"@,
    }
}

/// The persons of a finite table.
pub open spec fn persons(imperative: bool) -> Seq<Seq<char>> {
    if imperative {
        seq!["2"@, "3"@]
    } else {
        seq!["1"@, "2"@, "3"@]
    }
}

/// The row of a person in a finite table.
pub open spec fn person_row(slots: Seq<(Seq<char>, Seq<char>)>, values: Seq<Seq<char>>, person: Seq<char>) -> ParadigmRowView {
    ParadigmRowView {
        key: person,
        label: person,
        cells: number_columns().map_values(
            |c: (Seq<char>, Seq<char>)| cell_of(c.0, c.1, slot_value(slots, values, person, c.1)),
        ),
    }
}

/// A table with one row per value, for blocks without a known layout.
pub open spec fn sequence_table(
    kind: Seq<char>,
    heading: Seq<char>,
    key: Seq<char>,
    label: Seq<char>,
    values: Seq<Seq<char>>,
) -> ParadigmTableView {
    ParadigmTableView {
        kind,
        heading,
        columns: seq![ParadigmColumnView { key, label }],
        rows: Seq::new(
            values.len(),
            |i: int|
                ParadigmRowView {
                    key: "slot_"@ + decimal(i + 1),
                    label: "Slot "@ + decimal(i + 1),
                    cells: seq![cell_of(key, label, values[i])],
                },
        ),
    }
}

/// The table of a finite block: rows by person, columns by number, when the
/// number of values has a layout; one row per value otherwise.
pub open spec fn finite_table(heading: Seq<char>, values: Seq<Seq<char>>, imperative: bool) -> ParadigmTableView {
    match slots_for(values.len(), imperative) {
        None => sequence_table("verb_irregular"@, heading, "form"@, "Form"@, values),
        Some(slots) => ParadigmTableView {
            kind: "verb"@,
            heading,
            columns: columns_of(number_columns()),
            rows: persons(imperative).map_values(|p: Seq<char>| person_row(slots, values, p)),
        },
    }
}

/// The voices of a non-finite block, from its value count and the voices in
/// force: the count must be a multiple of the values per voice, and the
/// number of voice groups must fit the voices.
pub open spec fn nonfinite_voices(voices: Seq<Seq<char>>, count: nat, per: nat) -> Result<
    Seq<Seq<char>>,
    ParseErrorView,
> {
    let inferred = count / per;
    if inferred * per != count {
        Err(ParseErrorView::NotDivisible(count, per))
    } else if voices.len() == 0 {
        if inferred == 1 {
            Ok(seq!["form"@])
        } else {
            Err(ParseErrorView::NoVoiceMarkers(inferred))
        }
    } else if inferred == voices.len() {
        Ok(voices)
    } else if inferred == 1 {
        if voices == seq!["middle"@, "passive"@] {
            Ok(seq!["middle/passive"@])
        } else if voices == seq!["active"@, "middle"@] {
            Ok(seq!["active/middle"@])
        } else {
            Ok(seq!["form"@])
        }
    } else if voices == seq!["active"@, "middle"@, "passive"@] && inferred == 2 {
        Ok(seq!["active"@, "middle/passive"@])
    } else if voices == seq!["active"@, "middle"@] && inferred == 3 {
        Ok(seq!["active"@, "middle"@, "passive"@])
    } else if voices == seq!["middle"@] && inferred == 2 {
        Ok(seq!["active"@, "middle"@])
    } else {
        Err(ParseErrorView::VoiceGroupMismatch(voices.len(), inferred))
    }
}

/// The voices of a table, `form` when there are none.
pub open spec fn table_voices(voices: Seq<Seq<char>>) -> Seq<Seq<char>> {
    if voices.len() == 0 {
        seq!["form"@]
    } else {
        voices
    }
}

/// The columns of a non-finite table: one per voice.
pub open spec fn voice_columns(voices: Seq<Seq<char>>) -> Seq<(Seq<char>, Seq<char>)> {
    voices.map_values(|v: Seq<char>| (v, title_case(v)))
}

/// The table of an infinitive block: one value per voice.
pub open spec fn infinitive_table(heading: Seq<char>, voices: Seq<Seq<char>>, values: Seq<Seq<char>>) -> Result<
    ParadigmTableView,
    ParseErrorView,
> {
    let eff = table_voices(voices);
    if values.len() != eff.len() {
        Err(ParseErrorView::InfinitiveValueCount(heading, eff.len(), values.len()))
    } else {
        Ok(
            ParadigmTableView {
                kind: "infinitive"@,
                heading,
                columns: columns_of(voice_columns(eff)),
                rows: seq![
                    ParadigmRowView {
                        key: "infinitive"@,
                        label: "Inf"@,
                        cells: zipped_cells(voice_columns(eff), values),
                    },
                ],
            },
        )
    }
}

/// The table of a participle block: a row per gender, a value per voice.
pub open spec fn participle_table(heading: Seq<char>, voices: Seq<Seq<char>>, values: Seq<Seq<char>>) -> Result<
    ParadigmTableView,
    ParseErrorView,
> {
    let eff = table_voices(voices);
    if values.len() != eff.len() * 3 {
        Err(ParseErrorView::ParticipleValueCount(heading, eff.len() * 3, values.len()))
    } else {
        Ok(
            ParadigmTableView {
                kind: "participle"@,
                heading,
                columns: columns_of(voice_columns(eff)),
                rows: Seq::new(
                    3,
                    |g: int|
                        ParadigmRowView {
                            key: gender_columns()[g].0,
                            label: gender_columns()[g].1,
                            cells: zipped_cells(voice_columns(eff), values.subrange(g * eff.len(), g * eff.len() + eff.len())),
                        },
                ),
            },
        )
    }
}

/// The table of a verb block, with the tense and voices in force.
pub open spec fn verb_table(b: BlockView, tense: Option<Seq<char>>, voices: Seq<Seq<char>>) -> Result<
    ParadigmTableView,
    ParseErrorView,
> {
    let moods = kept_markers(b.markers, MarkerKind::Mood);
    if moods.len() == 0 {
        Err(ParseErrorView::MissingMood(join_by(b.markers, "#"@)))
    } else {
        let mood = moods.last();
        let variants = kept_markers(b.markers, MarkerKind::Variant);
        let heading = verb_heading(tense, variants, voices, mood);
        if mood == "indicative"@ || mood == "subjunctive"@ || mood == "optative"@ {
            Ok(finite_table(heading, b.values, false))
        } else if mood == "imperative"@ {
            Ok(finite_table(heading, b.values, true))
        } else if mood == "infinitive"@ {
            match nonfinite_voices(voices, b.values.len(), 1) {
                Err(e) => Err(e),
                Ok(nf) => infinitive_table(verb_heading(tense, variants, nf, mood), nf, b.values),
            }
        } else {
            match nonfinite_voices(voices, b.values.len(), 3) {
                Err(e) => Err(e),
                Ok(nf) => participle_table(verb_heading(tense, variants, nf, mood), nf, b.values),
            }
        }
    }
}

/// The tables of the first `n` blocks of a verb paradigm; the first refused
/// block refuses them all.
pub open spec fn verb_tables_upto(blocks: Seq<BlockView>, n: nat) -> Result<Seq<ParadigmTableView>, ParseErrorView>
    decreases n,
{
    if n == 0 {
        Ok(Seq::empty())
    } else {
        match verb_tables_upto(blocks, (n - 1) as nat) {
            Err(e) => Err(e),
            Ok(tables) => {
                let state = verb_state(blocks, n);
                match verb_table(blocks[n - 1], state.0, state.1) {
                    Err(e) => Err(e),
                    Ok(t) => Ok(tables.push(t)),
                }
            },
        }
    }
}


fn markers_of_kind(ms: &Vec<String>, kind: MarkerKind) -> (r: Vec<String>)
    ensures
        r.deep_view() == kept_markers(ms.deep_view(), kind),
{
    let ghost mv = ms.deep_view();
    let mut out: Vec<String> = Vec::new();
    let mut i: usize = 0;
    assert(mv.take(0) =~= Seq::<Seq<char>>::empty());
    while i < ms.len()
        invariant
            mv == ms.deep_view(),
            i <= mv.len(),
            out.deep_view() == kept_markers(mv.take(i as int), kind),
        decreases mv.len() - i,
    {
        let m = ms[i].as_str();
        assert(mv.take(i + 1).drop_last() =~= mv.take(i as int));
        assert(mv.take(i + 1).last() == m@);
        let keep = match kind {
            MarkerKind::Tense => tense_marker(m),
            MarkerKind::Voice => voice_marker(m),
            MarkerKind::Mood => mood_marker(m),
            MarkerKind::Variant => !tense_marker(m) && !voice_marker(m) && !mood_marker(m),
        };
        if keep {
            let ghost before = out.deep_view();
            out.push(ms[i].clone());
            assert(out.deep_view() =~= before.push(m@));
        }
        i = i + 1;
    }
    assert(mv.take(i as int) =~= mv);
    out
}

fn titled_all(v: &Vec<String>) -> (r: Vec<String>)
    ensures
        r.deep_view() == v.deep_view().map_values(|x: Seq<char>| title_case(x)),
{
    let mut out: Vec<String> = Vec::new();
    let mut i: usize = 0;
    while i < v.len()
        invariant
            i <= v@.len(),
            out.deep_view() == v.deep_view().map_values(|x: Seq<char>| title_case(x)).take(i as int),
        decreases v@.len() - i,
    {
        let ghost before = out.deep_view();
        let t = title_case_str(v[i].as_str());
        out.push(t);
        assert(out.deep_view() =~= before.push(t@));
        i = i + 1;
        assert(out.deep_view() =~= v.deep_view().map_values(|x: Seq<char>| title_case(x)).take(i as int));
    }
    assert(v.deep_view().map_values(|x: Seq<char>| title_case(x)).take(i as int) =~= v.deep_view().map_values(
        |x: Seq<char>| title_case(x),
    ));
    out
}

fn push_string(v: &mut Vec<String>, x: String)
    ensures
        final(v).deep_view() == old(v).deep_view().push(x@),
{
    v.push(x);
    assert(v.deep_view() =~= old(v).deep_view().push(x@));
}

fn build_verb_heading(tense: &Option<String>, variants: &Vec<String>, voices: &Vec<String>, mood: &str) -> (r: String)
    ensures
        r@ == verb_heading(opt_text(*tense), variants.deep_view(), voices.deep_view(), mood@),
{
    let mut parts: Vec<String> = Vec::new();
    let ghost t = match opt_text(*tense) {
        Some(x) => seq![title_case(x)],
        None => Seq::<Seq<char>>::empty(),
    };
    match tense {
        Some(x) => {
            push_string(&mut parts, title_case_str(x.as_str()));
        },
        None => {},
    }
    assert(parts.deep_view() =~= t);
    let tv = titled_all(variants);
    let mut i: usize = 0;
    while i < tv.len()
        invariant
            i <= tv@.len(),
            parts.deep_view() == t + tv.deep_view().take(i as int),
        decreases tv@.len() - i,
    {
        push_string(&mut parts, tv[i].clone());
        i = i + 1;
        assert(parts.deep_view() =~= t + tv.deep_view().take(i as int));
    }
    assert(tv.deep_view().take(i as int) =~= tv.deep_view());
    let ghost v = if voices.deep_view().len() > 0 {
        seq![join_by(voices.deep_view().map_values(|x: Seq<char>| title_case(x)), " / "@)]
    } else {
        Seq::<Seq<char>>::empty()
    };
    let ghost before = parts.deep_view();
    if voices.len() > 0 {
        let titles = titled_all(voices);
        push_string(&mut parts, join_strings(titles.as_slice(), " / "));
    }
    assert(parts.deep_view() =~= before + v);
    push_string(&mut parts, title_case_str(mood));
    assert(parts.deep_view() =~= t + variants.deep_view().map_values(|x: Seq<char>| title_case(x)) + v + seq![
        title_case(mood@),
    ]);
    join_strings(parts.as_slice(), " | ")
}

fn layout_slots(n: usize, imperative: bool) -> (r: Option<Vec<(String, String)>>)
    ensures
        match (r, slots_for(n as nat, imperative)) {
            (Some(v), Some(s)) => defs_view(v@) == s,
            (None, None) => true,
            _ => false,
        },
{
    if imperative {
        if n == 6 {
            let v = vec![def("2", "Singular"), def("3", "Singular"), def("2", "Dual"), def("3", "Dual"), def("2", "Plural"), def("3", "Plural")];
            assert(defs_view(v@) =~= imperative_slots());
            Some(v)
        } else if n == 4 {
            let v = vec![def("2", "Singular"), def("3", "Singular"), def("2", "Plural"), def("3", "Plural")];
            assert(defs_view(v@) =~= imperative_compact_slots());
            Some(v)
        } else {
            None
        }
    } else {
        if n == 8 {
            let v = vec![
                def("1", "Singular"),
                def("2", "Singular"),
                def("3", "Singular"),
                def("2", "Dual"),
                def("3", "Dual"),
                def("1", "Plural"),
                def("2", "Plural"),
                def("3", "Plural"),
            ];
            assert(defs_view(v@) =~= finite_slots());
            Some(v)
        } else if n == 6 {
            let v = vec![def("1", "Singular"), def("2", "Singular"), def("3", "Singular"), def("1", "Plural"), def("2", "Plural"), def("3", "Plural")];
            assert(defs_view(v@) =~= finite_compact_slots());
            Some(v)
        } else {
            None
        }
    }
}

fn find_slot(slots: &Vec<(String, String)>, person: &str, number: &str) -> (r: Option<usize>)
    ensures
        match r {
            Some(k) => first_slot(defs_view(slots@), person@, number@) == Some(k as int) && k < slots@.len(),
            None => first_slot(defs_view(slots@), person@, number@) is None,
        },
{
    let ghost sv = defs_view(slots@);
    let mut i: usize = 0;
    assert(sv.skip(0) =~= sv);
    while i < slots.len()
        invariant
            sv == defs_view(slots@),
            i <= sv.len(),
            first_slot(sv, person@, number@) == (match first_slot(sv.skip(i as int), person@, number@) {
                Some(k) => Some(k + i),
                None => None,
            }),
        decreases sv.len() - i,
    {
        assert(sv.skip(i as int)[0] == sv[i as int]);
        if str_eq(slots[i].0.as_str(), person) && str_eq(slots[i].1.as_str(), number) {
            return Some(i);
        }
        assert(sv.skip(i as int).drop_first() =~= sv.skip(i + 1));
        i = i + 1;
    }
    None
}

fn make_sequence_table(kind: &str, heading: String, key: &str, label: &str, values: &[String]) -> (t: ParadigmTable)
    ensures
        t@ == sequence_table(kind@, heading@, key@, label@, values.deep_view()),
{
    let ghost spec_rows = sequence_table(kind@, heading@, key@, label@, values.deep_view()).rows;
    let mut rows: Vec<ParadigmRow> = Vec::new();
    let mut i: usize = 0;
    while i < values.len()
        invariant
            i <= values@.len(),
            spec_rows == sequence_table(kind@, heading@, key@, label@, values.deep_view()).rows,
            paradigm_row_views(rows@) == spec_rows.take(i as int),
        decreases values@.len() - i,
    {
        let mut cells: Vec<ParadigmCell> = Vec::new();
        let c = make_cell(key, label, values[i].as_str());
        cells.push(c);
        let row = ParadigmRow { key: prefixed_count("slot_", i + 1), label: prefixed_count("Slot ", i + 1), cells };
        assert(row@.cells =~= seq![c@]);
        let ghost before = paradigm_row_views(rows@);
        rows.push(row);
        assert(paradigm_row_views(rows@) =~= before.push(row@));
        i = i + 1;
        assert(paradigm_row_views(rows@) =~= spec_rows.take(i as int));
    }
    assert(spec_rows.take(i as int) =~= spec_rows);
    let mut columns: Vec<ParadigmColumn> = Vec::new();
    let column = ParadigmColumn { key: string_from_str(key), label: string_from_str(label) };
    columns.push(column);
    let t = ParadigmTable { kind: string_from_str(kind), heading, columns, rows };
    assert(t@.columns =~= seq![column@]);
    t
}

fn make_finite_table(heading: String, values: &[String], imperative: bool) -> (t: ParadigmTable)
    ensures
        t@ == finite_table(heading@, values.deep_view(), imperative),
{
    match layout_slots(values.len(), imperative) {
        None => make_sequence_table("verb_irregular", heading, "form", "Form", values),
        Some(slots) => {
            let ghost sv = defs_view(slots@);
            let numbers = number_defs();
            let ps: Vec<&str> = if imperative { vec!["2", "3"] } else { vec!["1", "2", "3"] };
            let ghost spec_rows = persons(imperative).map_values(|p: Seq<char>| person_row(sv, values.deep_view(), p));
            assert(ps@.map_values(|p: &str| p@) =~= persons(imperative));
            let mut rows: Vec<ParadigmRow> = Vec::new();
            let mut r: usize = 0;
            while r < ps.len()
                invariant
                    r <= ps@.len(),
                    ps@.map_values(|p: &str| p@) == persons(imperative),
                    sv == defs_view(slots@),
                    sv.len() == values@.len(),
                    defs_view(numbers@) == number_columns(),
                    spec_rows == persons(imperative).map_values(|p: Seq<char>| person_row(sv, values.deep_view(), p)),
                    paradigm_row_views(rows@) == spec_rows.take(r as int),
                decreases ps@.len() - r,
            {
                let person = ps[r];
                assert(persons(imperative)[r as int] == person@);
                let ghost spec_cells = person_row(sv, values.deep_view(), person@).cells;
                let mut cells: Vec<ParadigmCell> = Vec::new();
                let mut c: usize = 0;
                while c < numbers.len()
                    invariant
                        c <= numbers@.len(),
                        defs_view(numbers@) == number_columns(),
                        sv == defs_view(slots@),
                        sv.len() == values@.len(),
                        spec_cells == person_row(sv, values.deep_view(), person@).cells,
                        cells@.map_values(|x: ParadigmCell| x@) == spec_cells.take(c as int),
                    decreases numbers@.len() - c,
                {
                    let number = numbers[c].1.as_str();
                    let value: String = match find_slot(&slots, person, number) {
                        Some(k) => values[k].clone(),
                        None => string_from_str("-"),
                    };
                    assert(value@ == slot_value(sv, values.deep_view(), person@, number@));
                    let cell = make_cell(numbers[c].0.as_str(), number, value.as_str());
                    let ghost before = cells@.map_values(|x: ParadigmCell| x@);
                    cells.push(cell);
                    assert(cells@.map_values(|x: ParadigmCell| x@) =~= before.push(cell@));
                    c = c + 1;
                    assert(cells@.map_values(|x: ParadigmCell| x@) =~= spec_cells.take(c as int));
                }
                assert(spec_cells.take(c as int) =~= spec_cells);
                let row = ParadigmRow { key: string_from_str(person), label: string_from_str(person), cells };
                let ghost before = paradigm_row_views(rows@);
                rows.push(row);
                assert(paradigm_row_views(rows@) =~= before.push(row@));
                r = r + 1;
                assert(paradigm_row_views(rows@) =~= spec_rows.take(r as int));
            }
            assert(spec_rows.take(r as int) =~= spec_rows);
            ParadigmTable { kind: string_from_str("verb"), heading, columns: make_columns(&numbers), rows }
        },
    }
}


fn strs_equal(v: &Vec<String>, expected: &Vec<&str>) -> (r: bool)
    ensures
        r == (v.deep_view() == expected@.map_values(|x: &str| x@)),
{
    let ghost ev = expected@.map_values(|x: &str| x@);
    if v.len() != expected.len() {
        assert(v.deep_view().len() != ev.len());
        return false;
    }
    let mut i: usize = 0;
    while i < v.len()
        invariant
            ev == expected@.map_values(|x: &str| x@),
            v@.len() == expected@.len(),
            i <= v@.len(),
            forall|j: int| 0 <= j < i ==> v.deep_view()[j] == ev[j],
        decreases v@.len() - i,
    {
        if !str_eq(v[i].as_str(), expected[i]) {
            assert(v.deep_view()[i as int] != ev[i as int]);
            return false;
        }
        i = i + 1;
    }
    assert(v.deep_view() =~= ev);
    true
}

fn strings_of(v: Vec<&str>) -> (r: Vec<String>)
    ensures
        r.deep_view() == v@.map_values(|x: &str| x@),
{
    let mut out: Vec<String> = Vec::new();
    let mut i: usize = 0;
    while i < v.len()
        invariant
            i <= v@.len(),
            out.deep_view() == v@.map_values(|x: &str| x@).take(i as int),
        decreases v@.len() - i,
    {
        push_string(&mut out, string_from_str(v[i]));
        i = i + 1;
        assert(out.deep_view() =~= v@.map_values(|x: &str| x@).take(i as int));
    }
    assert(v@.map_values(|x: &str| x@).take(i as int) =~= v@.map_values(|x: &str| x@));
    out
}

fn infer_nonfinite_voices(voices: &Vec<String>, count: usize, per: usize) -> (r: Result<Vec<String>, ParseError>)
    requires
        per > 0,
    ensures
        match (r, nonfinite_voices(voices.deep_view(), count as nat, per as nat)) {
            (Ok(v), Ok(vv)) => v.deep_view() == vv,
            (Err(e), Err(ev)) => e@ == ev,
            _ => false,
        },
{
    let inferred = count / per;
    assert(inferred * per <= count) by (nonlinear_arith)
        requires
            inferred == count / per,
            per > 0,
    ;
    if inferred * per != count {
        return Err(ParseError::NotDivisible(count, per));
    }
    let mp = vec!["middle", "passive"];
    let am = vec!["active", "middle"];
    let amp = vec!["active", "middle", "passive"];
    let m = vec!["middle"];
    assert(mp@.map_values(|x: &str| x@) =~= seq!["middle"@, "passive"@]);
    assert(am@.map_values(|x: &str| x@) =~= seq!["active"@, "middle"@]);
    assert(amp@.map_values(|x: &str| x@) =~= seq!["active"@, "middle"@, "passive"@]);
    assert(m@.map_values(|x: &str| x@) =~= seq!["middle"@]);
    if voices.len() == 0 {
        if inferred == 1 {
            let r = strings_of(vec!["form"]);
            assert(r.deep_view() =~= seq!["form"@]);
            return Ok(r);
        }
        return Err(ParseError::NoVoiceMarkers(inferred));
    }
    if inferred == voices.len() {
        let r = copy_strings(voices.as_slice());
        return Ok(r);
    }
    if inferred == 1 {
        if strs_equal(voices, &mp) {
            let r = strings_of(vec!["middle/passive"]);
            assert(r.deep_view() =~= seq!["middle/passive"@]);
            return Ok(r);
        }
        if strs_equal(voices, &am) {
            let r = strings_of(vec!["active/middle"]);
            assert(r.deep_view() =~= seq!["active/middle"@]);
            return Ok(r);
        }
        let r = strings_of(vec!["form"]);
        assert(r.deep_view() =~= seq!["form"@]);
        return Ok(r);
    }
    if strs_equal(voices, &amp) && inferred == 2 {
        let r = strings_of(vec!["active", "middle/passive"]);
        assert(r.deep_view() =~= seq!["active"@, "middle/passive"@]);
        return Ok(r);
    }
    if strs_equal(voices, &am) && inferred == 3 {
        let r = strings_of(vec!["active", "middle", "passive"]);
        assert(r.deep_view() =~= seq!["active"@, "middle"@, "passive"@]);
        return Ok(r);
    }
    if strs_equal(voices, &m) && inferred == 2 {
        let r = strings_of(vec!["active", "middle"]);
        assert(r.deep_view() =~= seq!["active"@, "middle"@]);
        return Ok(r);
    }
    Err(ParseError::VoiceGroupMismatch(voices.len(), inferred))
}

fn effective_voices(voices: &Vec<String>) -> (r: Vec<String>)
    ensures
        r.deep_view() == table_voices(voices.deep_view()),
{
    if voices.len() == 0 {
        let r = strings_of(vec!["form"]);
        assert(r.deep_view() =~= seq!["form"@]);
        r
    } else {
        copy_strings(voices.as_slice())
    }
}

fn voice_defs(voices: &Vec<String>) -> (r: Vec<(String, String)>)
    ensures
        defs_view(r@) == voice_columns(voices.deep_view()),
{
    let mut out: Vec<(String, String)> = Vec::new();
    let mut i: usize = 0;
    while i < voices.len()
        invariant
            i <= voices@.len(),
            defs_view(out@) == voice_columns(voices.deep_view()).take(i as int),
        decreases voices@.len() - i,
    {
        let d = (voices[i].clone(), title_case_str(voices[i].as_str()));
        let ghost before = defs_view(out@);
        out.push(d);
        assert(defs_view(out@) =~= before.push((d.0@, d.1@)));
        i = i + 1;
        assert(defs_view(out@) =~= voice_columns(voices.deep_view()).take(i as int));
    }
    assert(voice_columns(voices.deep_view()).take(i as int) =~= voice_columns(voices.deep_view()));
    out
}

fn make_infinitive_table(heading: String, voices: &Vec<String>, values: &[String]) -> (r: Result<ParadigmTable, ParseError>)
    ensures
        match (r, infinitive_table(heading@, voices.deep_view(), values.deep_view())) {
            (Ok(t), Ok(tv)) => t@ == tv,
            (Err(e), Err(ev)) => e@ == ev,
            _ => false,
        },
{
    let eff = effective_voices(voices);
    if values.len() != eff.len() {
        return Err(ParseError::InfinitiveValueCount(heading, eff.len(), values.len()));
    }
    let defs = voice_defs(&eff);
    let cells = make_cells(&defs, values);
    let row = ParadigmRow { key: string_from_str("infinitive"), label: string_from_str("Inf"), cells };
    let mut rows: Vec<ParadigmRow> = Vec::new();
    rows.push(row);
    let t = ParadigmTable { kind: string_from_str("infinitive"), heading, columns: make_columns(&defs), rows };
    assert(t@.rows =~= seq![row@]);
    Ok(t)
}

fn gender_key_label(g: usize) -> (r: (&'static str, &'static str))
    requires
        g < 3,
    ensures
        (r.0@, r.1@) == gender_columns()[g as int],
{
    if g == 0 {
        ("masc", "M")
    } else if g == 1 {
        ("fem", "F")
    } else {
        ("neut", "N")
    }
}

fn make_participle_table(heading: String, voices: &Vec<String>, values: &[String]) -> (r: Result<ParadigmTable, ParseError>)
    requires
        table_voices(voices.deep_view()).len() * 3 <= usize::MAX,
    ensures
        match (r, participle_table(heading@, voices.deep_view(), values.deep_view())) {
            (Ok(t), Ok(tv)) => t@ == tv,
            (Err(e), Err(ev)) => e@ == ev,
            _ => false,
        },
{
    let eff = effective_voices(voices);
    let n = eff.len();
    if values.len() != n * 3 {
        return Err(ParseError::ParticipleValueCount(heading, n * 3, values.len()));
    }
    let defs = voice_defs(&eff);
    let ghost ev = eff.deep_view();
    let ghost spec_rows = Seq::new(
        3,
        |g: int|
            ParadigmRowView {
                key: gender_columns()[g].0,
                label: gender_columns()[g].1,
                cells: zipped_cells(voice_columns(ev), values.deep_view().subrange(g * ev.len(), g * ev.len() + ev.len())),
            },
    );
    let vl = values.len();
    let mut rows: Vec<ParadigmRow> = Vec::new();
    let mut g: usize = 0;
    while g < 3
        invariant
            g <= 3,
            vl == values@.len(),
            vl == n * 3,
            n == ev.len(),
            values@.len() == n * 3,
            defs_view(defs@) == voice_columns(ev),
            spec_rows == Seq::new(
                3,
                |g: int|
                    ParadigmRowView {
                        key: gender_columns()[g].0,
                        label: gender_columns()[g].1,
                        cells: zipped_cells(voice_columns(ev), values.deep_view().subrange(g * ev.len(), g * ev.len() + ev.len())),
                    },
            ),
            paradigm_row_views(rows@) == spec_rows.take(g as int),
        decreases 3 - g,
    {
        assert(g * n + n <= vl && g * n <= g * n + n) by (nonlinear_arith)
            requires
                g < 3,
                vl == n * 3,
        ;
        let part = copy_range(values, g * n, g * n + n);
        let cells = make_cells(&defs, part.as_slice());
        let (key, label) = gender_key_label(g);
        let row = ParadigmRow { key: string_from_str(key), label: string_from_str(label), cells };
        let ghost before = paradigm_row_views(rows@);
        rows.push(row);
        assert(paradigm_row_views(rows@) =~= before.push(row@));
        g = g + 1;
        assert(paradigm_row_views(rows@) =~= spec_rows.take(g as int));
    }
    assert(spec_rows.take(3) =~= spec_rows);
    Ok(ParadigmTable { kind: string_from_str("participle"), heading, columns: make_columns(&defs), rows })
}


proof fn lemma_nonfinite_voices(voices: Seq<Seq<char>>, count: nat, per: nat)
    requires
        per > 0,
    ensures
        nonfinite_voices(voices, count, per) matches Ok(v) ==> v.len() >= 1 && v.len() * per == count,
{
}

fn make_verb_table(b: &RawBlock, tense: &Option<String>, voices: &Vec<String>) -> (r: Result<ParadigmTable, ParseError>)
    ensures
        match (r, verb_table(b@, opt_text(*tense), voices.deep_view())) {
            (Ok(t), Ok(tv)) => t@ == tv,
            (Err(e), Err(ev)) => e@ == ev,
            _ => false,
        },
{
    let moods = markers_of_kind(&b.markers, MarkerKind::Mood);
    if moods.len() == 0 {
        return Err(ParseError::MissingMood(join_strings(b.markers.as_slice(), "#")));
    }
    let mood = moods[moods.len() - 1].as_str();
    let variants = markers_of_kind(&b.markers, MarkerKind::Variant);
    let heading = build_verb_heading(tense, &variants, voices, mood);
    if str_eq(mood, "indicative") || str_eq(mood, "subjunctive") || str_eq(mood, "optative") {
        Ok(make_finite_table(heading, b.values.as_slice(), false))
    } else if str_eq(mood, "imperative") {
        Ok(make_finite_table(heading, b.values.as_slice(), true))
    } else if str_eq(mood, "infinitive") {
        proof {
            lemma_nonfinite_voices(voices.deep_view(), b.values@.len(), 1);
        }
        match infer_nonfinite_voices(voices, b.values.len(), 1) {
            Err(e) => Err(e),
            Ok(nf) => {
                let h = build_verb_heading(tense, &variants, &nf, mood);
                make_infinitive_table(h, &nf, b.values.as_slice())
            },
        }
    } else {
        proof {
            lemma_nonfinite_voices(voices.deep_view(), b.values@.len(), 3);
        }
        match infer_nonfinite_voices(voices, b.values.len(), 3) {
            Err(e) => Err(e),
            Ok(nf) => {
                let h = build_verb_heading(tense, &variants, &nf, mood);
                assert(table_voices(nf.deep_view()) == nf.deep_view());
                make_participle_table(h, &nf, b.values.as_slice())
            },
        }
    }
}

proof fn lemma_verb_tables_err(blocks: Seq<BlockView>, n: nat, m: nat)
    requires
        n <= m,
        verb_tables_upto(blocks, n) is Err,
    ensures
        verb_tables_upto(blocks, m) == verb_tables_upto(blocks, n),
    decreases m,
{
    if n < m {
        lemma_verb_tables_err(blocks, n, (m - 1) as nat);
    }
}

fn parse_verb_tables(blocks: &Vec<RawBlock>) -> (r: Result<Vec<ParadigmTable>, ParseError>)
    ensures
        tables_result(r) == verb_tables_upto(block_views(blocks@), blocks@.len()),
{
    let ghost bv = block_views(blocks@);
    let mut tables: Vec<ParadigmTable> = Vec::new();
    let mut tense: Option<String> = None;
    let mut voices: Vec<String> = Vec::new();
    let mut i: usize = 0;
    assert(table_views(tables@) =~= Seq::<ParadigmTableView>::empty());
    assert(voices.deep_view() =~= Seq::<Seq<char>>::empty());
    while i < blocks.len()
        invariant
            bv == block_views(blocks@),
            i <= bv.len(),
            (opt_text(tense), voices.deep_view()) == verb_state(bv, i as nat),
            verb_tables_upto(bv, i as nat) == Ok::<Seq<ParadigmTableView>, ParseErrorView>(table_views(tables@)),
        decreases bv.len() - i,
    {
        let b = &blocks[i];
        assert(bv[i as int] == b@);
        let tenses = markers_of_kind(&b.markers, MarkerKind::Tense);
        if tenses.len() > 0 {
            tense = Some(tenses[tenses.len() - 1].clone());
        }
        let block_voices = markers_of_kind(&b.markers, MarkerKind::Voice);
        if block_voices.len() > 0 {
            voices = block_voices;
        }
        assert((opt_text(tense), voices.deep_view()) == verb_state(bv, (i + 1) as nat));
        match make_verb_table(b, &tense, &voices) {
            Err(e) => {
                proof {
                    lemma_verb_tables_err(bv, (i + 1) as nat, bv.len());
                }
                return Err(e);
            },
            Ok(t) => {
                push_table(&mut tables, t);
            },
        }
        i = i + 1;
    }
    Ok(tables)
}

// ---------------------------------------------------------------------------
// Whole paradigms
// ---------------------------------------------------------------------------

/// Whether a nominal paradigm has a block without any marker, which the
/// layout cannot place.
pub open spec fn has_unmarked_nominal_block(payload: Seq<char>) -> bool {
    match payload_blocks(payload) {
        Ok(blocks) => match family_of(blocks) {
            Ok(ParadigmFamily::Verb) => false,
            Ok(_) => !marked(blocks),
            Err(_) => false,
        },
        Err(_) => false,
    }
}

/// The tables of a paradigm text, or why it is refused: the text is cut into
/// blocks, its family is found from them, and the blocks are laid out as
/// nominal or verb tables.
pub open spec fn paradigm_tables(payload: Seq<char>) -> Result<(ParadigmFamily, Seq<ParadigmTableView>), ParseErrorView> {
    match payload_blocks(payload) {
        Err(e) => Err(e),
        Ok(blocks) => match family_of(blocks) {
            Err(e) => Err(e),
            Ok(family) => {
                let tables = match family {
                    ParadigmFamily::Verb => verb_tables_upto(blocks, blocks.len()),
                    _ => nominal_tables_from(blocks, 0, None),
                };
                match tables {
                    Err(e) => Err(e),
                    Ok(t) => Ok((family, t)),
                }
            },
        },
    }
}

/// Whether a nominal paradigm text has a block without any marker.
pub fn unmarked_nominal_block(payload: &str) -> (r: bool)
    ensures
        r == has_unmarked_nominal_block(payload@),
{
    let blocks = match tokenize_payload(payload) {
        Err(_) => {
            return false;
        },
        Ok(b) => b,
    };
    let ghost bv = block_views(blocks@);
    match detect_family(&blocks) {
        Err(_) => false,
        Ok(ParadigmFamily::Verb) => false,
        Ok(f) => {
            let mut i: usize = 0;
            while i < blocks.len()
                invariant
                    bv == block_views(blocks@),
                    payload_blocks(payload@) == Ok::<Seq<BlockView>, ParseErrorView>(bv),
                    family_of(bv) == Ok::<ParadigmFamily, ParseErrorView>(f),
                    f != ParadigmFamily::Verb,
                    i <= bv.len(),
                    forall|k: int| 0 <= k < i ==> #[trigger] bv[k].markers.len() > 0,
                decreases bv.len() - i,
            {
                assert(bv[i as int] == blocks@[i as int]@);
                if blocks[i].markers.len() == 0 {
                    assert(bv[i as int].markers.len() == 0);
                    return true;
                }
                i = i + 1;
            }
            false
        },
    }
}

/// A paradigm parsed from its stored text: its family and tables, with its
/// title and the text itself.
pub fn parse_paradigm(title: &str, payload: &str) -> (r: Result<ParadigmEntry, ParseError>)
    requires
        !has_unmarked_nominal_block(payload@),
    ensures
        match (r, paradigm_tables(payload@)) {
            (Ok(entry), Ok((family, tables))) => entry@ == (ParadigmEntryView {
                title: title@,
                family,
                raw_payload: payload@,
                tables,
            }),
            (Err(e), Err(ev)) => e@ == ev,
            _ => false,
        },
{
    let blocks = tokenize_payload(payload)?;
    let family = detect_family(&blocks)?;
    let tables = match family {
        ParadigmFamily::Verb => parse_verb_tables(&blocks)?,
        _ => parse_nominal_like_tables(&blocks)?,
    };
    Ok(ParadigmEntry {
        title: string_from_str(title),
        family,
        raw_payload: string_from_str(payload),
        tables,
    })
}

} // verus!
