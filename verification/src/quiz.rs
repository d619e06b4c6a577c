//! Answer checking and question generation: accent folding, edit distance,
//! the analysis text of a form, similarity ranking and the three question kinds.
use rand::seq::SliceRandom;
use vstd::prelude::*;

use crate::models::{QuestionView, QuizMode, option_views, AnswerOption, assoc_get, lemma_assoc_put, constant_by_id, ConstantTable, ConstantView, GrammarConstant, Question, QuizRow, QuizRowView};
use crate::text::{to_lowercase, unicode_lowercase, decimal, prefixed_decimal, str_eq, chars_of, is_white_space, is_white_space_char, join_by, join_strings, push_char, split_by, split_chars, string_from_str};

verus! {

/// The lowercase letter of an ASCII letter (`char::to_ascii_lowercase`).
pub open spec fn ascii_lowercase(ch: char) -> char {
    if 'A' <= ch && ch <= 'Z' {
        ((ch as int) + 32) as char
    } else {
        ch
    }
}

/// Whether `ch` is an ASCII letter (`char::is_ascii_alphabetic`).
pub open spec fn is_ascii_letter(ch: char) -> bool {
    ('A' <= ch && ch <= 'Z') || ('a' <= ch && ch <= 'z')
}

/// The unaccented lowercase Greek letter (or lowercase ASCII letter) that `ch`
/// stands for; `None` for any other character.
pub open spec fn deaccented(ch: char) -> Option<char> {
    match ch {
        'α' | 'Α' => Some('α'),
        'ά' | 'ὰ' | 'ᾶ' | 'ἀ' | 'ἁ' | 'ἄ' | 'ἅ' | 'ἂ' | 'ἃ' | 'ἆ' | 'ἇ' | 'ᾱ' | 'ᾰ' | 'ᾳ'
        | 'ᾴ' | 'ᾲ' | 'ᾷ' | 'Ἀ' | 'Ἁ' | 'Ἄ' | 'Ἅ' | 'Ἂ' | 'Ἃ' | 'Ἆ' | 'Ἇ' | 'Ὰ' | 'Ά' => Some('α'),
        'ε' | 'Ε' => Some('ε'),
        'έ' | 'ὲ' | 'ἐ' | 'ἑ' | 'ἔ' | 'ἕ' | 'ἒ' | 'ἓ' | 'Ἐ' | 'Ἑ' | 'Ἔ' | 'Ἕ' | 'Ἒ' | 'Ἓ' | 'Ὲ' | 'Έ' => Some('ε'),
        'η' | 'Η' => Some('η'),
        'ή' | 'ὴ' | 'ῆ' | 'ἠ' | 'ἡ' | 'ἤ' | 'ἥ' | 'ἢ' | 'ἣ' | 'ἦ' | 'ἧ' | 'ῃ' | 'ῄ' | 'ῂ' | 'ῇ'
        | 'Ἠ' | 'Ἡ' | 'Ἤ' | 'Ἥ' | 'Ἢ' | 'Ἣ' | 'Ἦ' | 'Ἧ' | 'Ὴ' | 'Ή' => Some('η'),
        'ι' | 'Ι' => Some('ι'),
        'ί' | 'ὶ' | 'ῖ' | 'ἰ' | 'ἱ' | 'ἴ' | 'ἵ' | 'ἲ' | 'ἳ' | 'ἶ' | 'ἷ' | 'ϊ' | 'ΐ' | 'ῒ' | 'ῗ'
        | 'Ἰ' | 'Ἱ' | 'Ἴ' | 'Ἵ' | 'Ἲ' | 'Ἳ' | 'Ἶ' | 'Ἷ' | 'Ὶ' | 'Ί' | 'Ϊ' => Some('ι'),
        'ο' | 'Ο' => Some('ο'),
        'ό' | 'ὸ' | 'ὀ' | 'ὁ' | 'ὄ' | 'ὅ' | 'ὂ' | 'ὃ' | 'Ὀ' | 'Ὁ' | 'Ὄ' | 'Ὅ' | 'Ὂ' | 'Ὃ' | 'Ὸ' | 'Ό' => Some('ο'),
        'υ' | 'Υ' => Some('υ'),
        'ύ' | 'ὺ' | 'ῦ' | 'ὐ' | 'ὑ' | 'ὔ' | 'ὕ' | 'ὒ' | 'ὓ' | 'ὖ' | 'ὗ' | 'ϋ' | 'ΰ' | 'ῢ' | 'ῧ'
        | 'Ύ' | 'Ὺ' | 'Ϋ' => Some('υ'),
        'ω' | 'Ω' => Some('ω'),
        'ώ' | 'ὼ' | 'ῶ' | 'ὠ' | 'ὡ' | 'ὤ' | 'ὥ' | 'ὢ' | 'ὣ' | 'ὦ' | 'ὧ' | 'ῳ' | 'ῴ' | 'ῲ' | 'ῷ'
        | 'Ὠ' | 'Ὡ' | 'Ὤ' | 'Ὥ' | 'Ὢ' | 'Ὣ' | 'Ὦ' | 'Ὧ' | 'Ὼ' | 'Ώ' => Some('ω'),
        'β' | 'Β' => Some('β'),
        'γ' | 'Γ' => Some('γ'),
        'δ' | 'Δ' => Some('δ'),
        'ζ' | 'Ζ' => Some('ζ'),
        'θ' | 'Θ' => Some('θ'),
        'κ' | 'Κ' => Some('κ'),
        'λ' | 'Λ' => Some('λ'),
        'μ' | 'Μ' => Some('μ'),
        'ν' | 'Ν' => Some('ν'),
        'ξ' | 'Ξ' => Some('ξ'),
        'π' | 'Π' => Some('π'),
        'ρ' | 'ῤ' | 'ῥ' | 'Ρ' => Some('ρ'),
        'τ' | 'Τ' => Some('τ'),
        'φ' | 'Φ' => Some('φ'),
        'χ' | 'Χ' => Some('χ'),
        'ψ' | 'Ψ' => Some('ψ'),
        _ => if is_ascii_letter(ch) { Some(ascii_lowercase(ch)) } else { None },
    }
}

/// Folds a Greek letter to its unaccented lowercase form, an ASCII letter to
/// lowercase; `None` for any other character.
pub fn deaccent_greek(ch: char) -> (r: Option<char>)
    ensures
        r == deaccented(ch),
{
    match ch {
        'α' | 'Α' => Some('α'),
        'ά' | 'ὰ' | 'ᾶ' | 'ἀ' | 'ἁ' | 'ἄ' | 'ἅ' | 'ἂ' | 'ἃ' | 'ἆ' | 'ἇ' | 'ᾱ' | 'ᾰ' | 'ᾳ'
        | 'ᾴ' | 'ᾲ' | 'ᾷ' | 'Ἀ' | 'Ἁ' | 'Ἄ' | 'Ἅ' | 'Ἂ' | 'Ἃ' | 'Ἆ' | 'Ἇ' | 'Ὰ' | 'Ά' => Some('α'),
        'ε' | 'Ε' => Some('ε'),
        'έ' | 'ὲ' | 'ἐ' | 'ἑ' | 'ἔ' | 'ἕ' | 'ἒ' | 'ἓ' | 'Ἐ' | 'Ἑ' | 'Ἔ' | 'Ἕ' | 'Ἒ' | 'Ἓ' | 'Ὲ' | 'Έ' => Some('ε'),
        'η' | 'Η' => Some('η'),
        'ή' | 'ὴ' | 'ῆ' | 'ἠ' | 'ἡ' | 'ἤ' | 'ἥ' | 'ἢ' | 'ἣ' | 'ἦ' | 'ἧ' | 'ῃ' | 'ῄ' | 'ῂ' | 'ῇ'
        | 'Ἠ' | 'Ἡ' | 'Ἤ' | 'Ἥ' | 'Ἢ' | 'Ἣ' | 'Ἦ' | 'Ἧ' | 'Ὴ' | 'Ή' => Some('η'),
        'ι' | 'Ι' => Some('ι'),
        'ί' | 'ὶ' | 'ῖ' | 'ἰ' | 'ἱ' | 'ἴ' | 'ἵ' | 'ἲ' | 'ἳ' | 'ἶ' | 'ἷ' | 'ϊ' | 'ΐ' | 'ῒ' | 'ῗ'
        | 'Ἰ' | 'Ἱ' | 'Ἴ' | 'Ἵ' | 'Ἲ' | 'Ἳ' | 'Ἶ' | 'Ἷ' | 'Ὶ' | 'Ί' | 'Ϊ' => Some('ι'),
        'ο' | 'Ο' => Some('ο'),
        'ό' | 'ὸ' | 'ὀ' | 'ὁ' | 'ὄ' | 'ὅ' | 'ὂ' | 'ὃ' | 'Ὀ' | 'Ὁ' | 'Ὄ' | 'Ὅ' | 'Ὂ' | 'Ὃ' | 'Ὸ' | 'Ό' => Some('ο'),
        'υ' | 'Υ' => Some('υ'),
        'ύ' | 'ὺ' | 'ῦ' | 'ὐ' | 'ὑ' | 'ὔ' | 'ὕ' | 'ὒ' | 'ὓ' | 'ὖ' | 'ὗ' | 'ϋ' | 'ΰ' | 'ῢ' | 'ῧ'
        | 'Ύ' | 'Ὺ' | 'Ϋ' => Some('υ'),
        'ω' | 'Ω' => Some('ω'),
        'ώ' | 'ὼ' | 'ῶ' | 'ὠ' | 'ὡ' | 'ὤ' | 'ὥ' | 'ὢ' | 'ὣ' | 'ὦ' | 'ὧ' | 'ῳ' | 'ῴ' | 'ῲ' | 'ῷ'
        | 'Ὠ' | 'Ὡ' | 'Ὤ' | 'Ὥ' | 'Ὢ' | 'Ὣ' | 'Ὦ' | 'Ὧ' | 'Ὼ' | 'Ώ' => Some('ω'),
        'β' | 'Β' => Some('β'),
        'γ' | 'Γ' => Some('γ'),
        'δ' | 'Δ' => Some('δ'),
        'ζ' | 'Ζ' => Some('ζ'),
        'θ' | 'Θ' => Some('θ'),
        'κ' | 'Κ' => Some('κ'),
        'λ' | 'Λ' => Some('λ'),
        'μ' | 'Μ' => Some('μ'),
        'ν' | 'Ν' => Some('ν'),
        'ξ' | 'Ξ' => Some('ξ'),
        'π' | 'Π' => Some('π'),
        'ρ' | 'ῤ' | 'ῥ' | 'Ρ' => Some('ρ'),
        'τ' | 'Τ' => Some('τ'),
        'φ' | 'Φ' => Some('φ'),
        'χ' | 'Χ' => Some('χ'),
        'ψ' | 'Ψ' => Some('ψ'),
        _ => {
            if 'A' <= ch && ch <= 'Z' {
                let code = ch as u8;
                Some((code + 32) as char)
            } else if 'a' <= ch && ch <= 'z' {
                Some(ch)
            } else {
                None
            }
        },
    }
}

/// Whether a lemma label matches a search: an empty search matches every
/// label; otherwise the label, lowercased and folded, contains the search,
/// lowercased and folded.
pub open spec fn search_matches(query: Seq<char>, label: Seq<char>) -> bool {
    query.len() == 0 || crate::text::contains_seq(
        deaccented_seq(unicode_lowercase(label)),
        deaccented_seq(unicode_lowercase(query)),
    )
}

/// Whether a lemma label matches the search typed in the lemma filter.
pub fn lemma_matches_search(query: &str, label: &str) -> (r: bool)
    ensures
        r == search_matches(query@, label@),
{
    if query.unicode_len() == 0 {
        return true;
    }
    let q = deaccent_greek_string(to_lowercase(query).as_str());
    let t = deaccent_greek_string(to_lowercase(label).as_str());
    crate::text::str_contains(t.as_str(), q.as_str())
}

/// The characters of `s` that fold to a letter, folded.
pub open spec fn deaccented_seq(s: Seq<char>) -> Seq<char>
    decreases s.len(),
{
    if s.len() == 0 {
        Seq::empty()
    } else {
        match deaccented(s.last()) {
            Some(c) => deaccented_seq(s.drop_last()).push(c),
            None => deaccented_seq(s.drop_last()),
        }
    }
}

/// The string with every letter folded and every other character dropped.
pub fn deaccent_greek_string(s: &str) -> (r: String)
    ensures
        r@ == deaccented_seq(s@),
{
    let v = chars_of(s);
    let mut r = String::new();
    let mut i: usize = 0;
    while i < v.len()
        invariant
            v@ == s@,
            i <= v@.len(),
            r@ == deaccented_seq(v@.take(i as int)),
        decreases v@.len() - i,
    {
        assert(v@.take(i + 1).drop_last() =~= v@.take(i as int));
        match deaccent_greek(v[i]) {
            Some(c) => push_char(&mut r, c),
            None => {},
        }
        i = i + 1;
    }
    assert(v@.take(v@.len() as int) =~= v@);
    r
}

/// How one character of an answer is compared: sigma in any form is `σ`,
/// letters are folded, anything else is dropped.
pub open spec fn normalized_char(ch: char) -> Option<char> {
    if ch == 'ς' || ch == 'Σ' || ch == 'σ' {
        Some('σ')
    } else {
        deaccented(ch)
    }
}

/// The comparison form of an answer.
pub open spec fn normalized_seq(s: Seq<char>) -> Seq<char>
    decreases s.len(),
{
    if s.len() == 0 {
        Seq::empty()
    } else {
        match normalized_char(s.last()) {
            Some(c) => if is_white_space(c) {
                normalized_seq(s.drop_last())
            } else {
                normalized_seq(s.drop_last()).push(c)
            },
            None => normalized_seq(s.drop_last()),
        }
    }
}

/// The form in which typed answers are compared: accents and case folded,
/// final sigma unified, everything but letters dropped.
pub fn normalize_answer(value: &str) -> (r: String)
    ensures
        r@ == normalized_seq(value@),
{
    let v = chars_of(value);
    let mut r = String::new();
    let mut i: usize = 0;
    while i < v.len()
        invariant
            v@ == value@,
            i <= v@.len(),
            r@ == normalized_seq(v@.take(i as int)),
        decreases v@.len() - i,
    {
        assert(v@.take(i + 1).drop_last() =~= v@.take(i as int));
        let ch = v[i];
        let normalized = if ch == 'ς' || ch == 'Σ' || ch == 'σ' {
            Some('σ')
        } else {
            deaccent_greek(ch)
        };
        match normalized {
            Some(c) => {
                if !is_white_space_char(c) {
                    push_char(&mut r, c);
                }
            },
            None => {},
        }
        i = i + 1;
    }
    assert(v@.take(v@.len() as int) =~= v@);
    r
}

/// Whether a typed answer matches one of the accepted answers once both are
/// normalized.
pub fn is_correct_text_answer(question: &Question, value: &str) -> (r: bool)
    ensures
        r == exists|i: int|
            0 <= i < question.accepted_text_answers@.len() && #[trigger] normalized_seq(
                question.accepted_text_answers@[i]@,
            ) == normalized_seq(value@),
{
    let target = normalize_answer(value);
    let mut i: usize = 0;
    while i < question.accepted_text_answers.len()
        invariant
            i <= question.accepted_text_answers@.len(),
            target@ == normalized_seq(value@),
            forall|j: int|
                0 <= j < i ==> #[trigger] normalized_seq(question.accepted_text_answers@[j]@)
                    != normalized_seq(value@),
        decreases question.accepted_text_answers@.len() - i,
    {
        let candidate = normalize_answer(question.accepted_text_answers[i].as_str());
        if candidate == target {
            return true;
        }
        i = i + 1;
    }
    false
}


/// The smallest of three integers.
pub open spec fn min3(x: int, y: int, z: int) -> int {
    if x <= y && x <= z {
        x
    } else if y <= z {
        y
    } else {
        z
    }
}

/// The Levenshtein distance: the fewest single-character insertions,
/// deletions and substitutions that turn `a` into `b`.
pub open spec fn edit_distance(a: Seq<char>, b: Seq<char>) -> nat
    decreases a.len() + b.len(),
{
    if a.len() == 0 {
        b.len()
    } else if b.len() == 0 {
        a.len()
    } else {
        let cost: int = if a.last() == b.last() { 0 } else { 1 };
        min3(
            edit_distance(a.drop_last(), b) + 1int,
            edit_distance(a, b.drop_last()) + 1int,
            edit_distance(a.drop_last(), b.drop_last()) + cost,
        ) as nat
    }
}

proof fn lemma_edit_distance_bound(a: Seq<char>, b: Seq<char>)
    ensures
        edit_distance(a, b) <= if a.len() >= b.len() { a.len() } else { b.len() },
    decreases a.len() + b.len(),
{
    if a.len() > 0 && b.len() > 0 {
        lemma_edit_distance_bound(a.drop_last(), b.drop_last());
    }
}

/// The edit distance between a string and itself is zero.
pub proof fn lemma_edit_distance_self(a: Seq<char>)
    ensures
        edit_distance(a, a) == 0,
    decreases a.len(),
{
    if a.len() > 0 {
        lemma_edit_distance_self(a.drop_last());
    }
}

/// The edit distance does not depend on the order of its arguments.
pub proof fn lemma_edit_distance_symmetric(a: Seq<char>, b: Seq<char>)
    ensures
        edit_distance(a, b) == edit_distance(b, a),
    decreases a.len() + b.len(),
{
    if a.len() > 0 && b.len() > 0 {
        lemma_edit_distance_symmetric(a.drop_last(), b);
        lemma_edit_distance_symmetric(a, b.drop_last());
        lemma_edit_distance_symmetric(a.drop_last(), b.drop_last());
    }
}

/// The Levenshtein distance between two strings, counted in characters.
pub fn levenshtein(a: &str, b: &str) -> (d: usize)
    requires
        a@.len() < usize::MAX,
        b@.len() < usize::MAX,
    ensures
        d == edit_distance(a@, b@),
{
    let a = chars_of(a);
    let b = chars_of(b);
    let m = a.len();
    let n = b.len();
    if m == 0 {
        return n;
    }
    if n == 0 {
        return m;
    }
    let mut prev: Vec<usize> = Vec::new();
    let mut curr: Vec<usize> = Vec::new();
    let mut k: usize = 0;
    while k <= n
        invariant
            n == b@.len(),
            n < usize::MAX,
            k <= n + 1,
            prev@.len() == k,
            curr@.len() == k,
            forall|j: int| 0 <= j < k ==> prev@[j] == edit_distance(a@.take(0), b@.take(j)),
        decreases n + 1 - k,
    {
        assert(a@.take(0).len() == 0);
        prev.push(k);
        curr.push(0);
        k = k + 1;
    }
    let mut i: usize = 1;
    while i <= m
        invariant
            m == a@.len(),
            n == b@.len(),
            m < usize::MAX,
            n < usize::MAX,
            n > 0,
            1 <= i <= m + 1,
            prev@.len() == n + 1,
            curr@.len() == n + 1,
            forall|j: int| 0 <= j <= n ==> prev@[j] == edit_distance(a@.take(i - 1), b@.take(j)),
        decreases m + 1 - i,
    {
        curr.set(0, i);
        assert(b@.take(0).len() == 0);
        let mut j: usize = 1;
        while j <= n
            invariant
                m == a@.len(),
                n == b@.len(),
                m < usize::MAX,
                n < usize::MAX,
                1 <= i <= m,
                1 <= j <= n + 1,
                prev@.len() == n + 1,
                curr@.len() == n + 1,
                forall|t: int| 0 <= t <= n ==> prev@[t] == edit_distance(a@.take(i - 1), b@.take(t)),
                forall|t: int| 0 <= t < j ==> curr@[t] == edit_distance(a@.take(i as int), b@.take(t)),
            decreases n + 1 - j,
        {
            let cost: usize = if a[i - 1] == b[j - 1] { 0 } else { 1 };
            proof {
                let x = a@.take(i as int);
                let y = b@.take(j as int);
                assert(x.drop_last() =~= a@.take(i - 1));
                assert(y.drop_last() =~= b@.take(j - 1));
                lemma_edit_distance_bound(a@.take(i - 1), y);
                lemma_edit_distance_bound(x, b@.take(j - 1));
                lemma_edit_distance_bound(a@.take(i - 1), b@.take(j - 1));
            }
            let deletion = prev[j] + 1;
            let insertion = curr[j - 1] + 1;
            let substitution = prev[j - 1] + cost;
            let mut best = deletion;
            if insertion < best {
                best = insertion;
            }
            if substitution < best {
                best = substitution;
            }
            curr.set(j, best);
            j = j + 1;
        }
        let tmp = prev;
        prev = curr;
        curr = tmp;
        i = i + 1;
    }
    assert(a@.take(m as int) =~= a@);
    assert(b@.take(n as int) =~= b@);
    prev[n]
}

/// The entry at `i`, if there is one.
pub open spec fn entry_at(s: Seq<Seq<char>>, i: int) -> Option<Seq<char>> {
    if 0 <= i < s.len() {
        Some(s[i])
    } else {
        None
    }
}

/// How many of the positions below `k` hold different entries (or an entry on
/// one side only).
pub open spec fn count_differing(x: Seq<Seq<char>>, y: Seq<Seq<char>>, k: nat) -> nat
    decreases k,
{
    if k == 0 {
        0
    } else {
        count_differing(x, y, (k - 1) as nat) + if entry_at(x, k - 1) != entry_at(y, k - 1) {
            1nat
        } else {
            0nat
        }
    }
}

/// The separator between the tags of an analysis.
pub open spec fn tag_separator() -> Seq<char> {
    " • "@
}

/// How many tag positions differ between two analyses.
pub open spec fn tag_differences(a: Seq<char>, b: Seq<char>) -> nat {
    let x = split_by(a, tag_separator());
    let y = split_by(b, tag_separator());
    count_differing(x, y, if x.len() >= y.len() { x.len() } else { y.len() })
}

/// The number of tag positions in which two analysis texts differ.
pub fn tag_diff_count(a: &str, b: &str) -> (r: usize)
    ensures
        r == tag_differences(a@, b@),
{
    let sep = chars_of(" • ");
    proof {
        reveal_strlit(" • ");
    }
    let av = chars_of(a);
    let bv = chars_of(b);
    let x = split_chars(av.as_slice(), sep.as_slice());
    let y = split_chars(bv.as_slice(), sep.as_slice());
    let max_len = if x.len() >= y.len() { x.len() } else { y.len() };
    let mut count: usize = 0;
    let mut i: usize = 0;
    while i < max_len
        invariant
            x.deep_view() == split_by(a@, tag_separator()),
            y.deep_view() == split_by(b@, tag_separator()),
            max_len == if x@.len() >= y@.len() { x@.len() } else { y@.len() },
            i <= max_len,
            count == count_differing(x.deep_view(), y.deep_view(), i as nat),
            count <= i,
        decreases max_len - i,
    {
        let differs = if i < x.len() && i < y.len() {
            x[i] != y[i]
        } else {
            i < x.len() || i < y.len()
        };
        assert(differs == (entry_at(x.deep_view(), i as int) != entry_at(y.deep_view(), i as int)));
        if differs {
            count = count + 1;
        }
        i = i + 1;
    }
    count
}

/// An analysis differs from itself in no tag.
pub proof fn lemma_tag_differences_self(a: Seq<char>)
    ensures
        tag_differences(a, a) == 0,
{
    let x = split_by(a, tag_separator());
    lemma_count_differing_same(x, x.len());
}

proof fn lemma_count_differing_same(x: Seq<Seq<char>>, k: nat)
    ensures
        count_differing(x, x, k) == 0,
    decreases k,
{
    if k > 0 {
        lemma_count_differing_same(x, (k - 1) as nat);
    }
}

proof fn lemma_count_differing_symmetric(x: Seq<Seq<char>>, y: Seq<Seq<char>>, k: nat)
    ensures
        count_differing(x, y, k) == count_differing(y, x, k),
    decreases k,
{
    if k > 0 {
        lemma_count_differing_symmetric(x, y, (k - 1) as nat);
    }
}

/// The number of differing tags does not depend on the order of the analyses.
pub proof fn lemma_tag_differences_symmetric(a: Seq<char>, b: Seq<char>)
    ensures
        tag_differences(a, b) == tag_differences(b, a),
{
    let x = split_by(a, tag_separator());
    let y = split_by(b, tag_separator());
    lemma_count_differing_symmetric(x, y, if x.len() >= y.len() { x.len() } else { y.len() });
}


/// The categories of an analysis, in the order in which they are described.
pub open spec fn description_order() -> Seq<Seq<char>> {
    seq![
        "declension"@,
        "case"@,
        "gender"@,
        "tense"@,
        "voice"@,
        "mood"@,
        "number"@,
        "person"@,
        "dialect"@,
        "stemtype"@,
    ]
}

/// The category at position `k` of the description order.
pub fn description_category(k: usize) -> (r: &'static str)
    requires
        k < 10,
    ensures
        r@ == description_order()[k as int],
{
    match k {
        0 => "declension",
        1 => "case",
        2 => "gender",
        3 => "tense",
        4 => "voice",
        5 => "mood",
        6 => "number",
        7 => "person",
        8 => "dialect",
        _ => "stemtype",
    }
}

/// The display labels of some constants.
pub open spec fn display_labels(s: Seq<ConstantView>) -> Seq<Seq<char>> {
    s.map_values(|c: ConstantView| c.display_label)
}

/// The tags gathered from the first `k` categories of the description order,
/// with the person and the number kept aside.
pub open spec fn pairs_through(
    row: QuizRowView,
    constants: Seq<ConstantView>,
    k: nat,
) -> (Seq<(Seq<char>, Seq<char>)>, Option<Seq<char>>, Option<Seq<char>>)
    decreases k,
{
    if k == 0 {
        (Seq::empty(), None, None)
    } else {
        let (parts, person, number) = pairs_through(row, constants, (k - 1) as nat);
        let category = description_order()[k - 1];
        match assoc_get(row.constant_ids, category) {
            Some(id) => match constant_by_id(constants, id) {
                Some(c) => if category == "person"@ {
                    (parts, Some(c.display_label), number)
                } else if category == "number"@ {
                    (parts, person, Some(c.display_label))
                } else {
                    (parts.push((category, c.display_label)), person, number)
                },
                None => (parts, person, number),
            },
            None => match assoc_get(row.lemma_attributes, category) {
                Some(values) => {
                    let joined = join_by(display_labels(values), ", "@);
                    if joined.len() > 0 {
                        (parts.push((category, joined)), person, number)
                    } else {
                        (parts, person, number)
                    }
                },
                None => (parts, person, number),
            },
        }
    }
}

/// The short form of a number after a person: `s`, `p` or `d`.
pub open spec fn short_number(number: Seq<char>) -> Seq<char> {
    if number == "Singular"@ {
        "s"@
    } else if number == "Plural"@ {
        "p"@
    } else if number == "Dual"@ {
        "d"@
    } else {
        number
    }
}

/// The (category, text) tags that describe a row: the categories of the
/// description order that the row or its lemma has, then person and number
/// together.
pub open spec fn tag_pairs(row: QuizRowView, constants: Seq<ConstantView>) -> Seq<(Seq<char>, Seq<char>)> {
    let (parts, person, number) = pairs_through(row, constants, 10);
    match (person, number) {
        (Some(p), Some(n)) => parts.push(("person_number"@, p + short_number(n))),
        (Some(p), None) => parts.push(("person"@, p)),
        (None, Some(n)) => parts.push(("number"@, n)),
        (None, None) => parts,
    }
}

/// The analysis text of a row: the tag texts joined with ` • `.
pub open spec fn analysis_text(row: QuizRowView, constants: Seq<ConstantView>) -> Seq<char> {
    join_by(tag_pairs(row, constants).map_values(|p: (Seq<char>, Seq<char>)| p.1), tag_separator())
}

fn display_label_strings(values: &Vec<GrammarConstant>) -> (r: Vec<String>)
    ensures
        r.deep_view() == display_labels(crate::models::constant_views(values@)),
{
    let mut r: Vec<String> = Vec::new();
    let mut i: usize = 0;
    while i < values.len()
        invariant
            i <= values@.len(),
            r.deep_view() == display_labels(crate::models::constant_views(values@)).take(i as int),
        decreases values@.len() - i,
    {
        let ghost before = r.deep_view();
        let c = values[i].display_label.clone();
        r.push(c);
        assert(r.deep_view() =~= before.push(c@));
        i = i + 1;
        assert(r.deep_view() =~= display_labels(crate::models::constant_views(values@)).take(i as int));
    }
    assert(display_labels(crate::models::constant_views(values@)).take(i as int) =~= display_labels(crate::models::constant_views(values@)));
    r
}

fn push_pair(parts: &mut Vec<(String, String)>, category: String, value: String)
    ensures
        final(parts).deep_view() == old(parts).deep_view().push((category@, value@)),
{
    parts.push((category, value));
    assert(parts.deep_view() =~= old(parts).deep_view().push((category@, value@)));
}

/// The (category, text) tags that describe a row.
pub fn render_tag_pairs(row: &QuizRow, constants: &ConstantTable) -> (r: Vec<(String, String)>)
    ensures
        r.deep_view() == tag_pairs(row@, constants@),
{
    let mut parts: Vec<(String, String)> = Vec::new();
    let mut person_str: Option<String> = None;
    let mut number_str: Option<String> = None;
    let mut k: usize = 0;
    assert(parts.deep_view() =~= Seq::<(Seq<char>, Seq<char>)>::empty());
    while k < 10
        invariant
            k <= 10,
            pairs_through(row@, constants@, k as nat) == (
                parts.deep_view(),
                match person_str {
                    Some(p) => Some(p@),
                    None => None::<Seq<char>>,
                },
                match number_str {
                    Some(n) => Some(n@),
                    None => None::<Seq<char>>,
                },
            ),
        decreases 10 - k,
    {
        let category = description_category(k);
        match row.constant_ids.get(category) {
            Some(constant_id) => {
                match constants.get(constant_id) {
                    Some(constant) => {
                        if str_eq(category, "person") {
                            person_str = Some(constant.display_label.clone());
                        } else if str_eq(category, "number") {
                            number_str = Some(constant.display_label.clone());
                        } else {
                            push_pair(&mut parts, string_from_str(category), constant.display_label.clone());
                        }
                    },
                    None => {},
                }
            },
            None => {
                match row.lemma_attributes.get(category) {
                    Some(values) => {
                        let labels = display_label_strings(values);
                        let joined = join_strings(labels.as_slice(), ", ");
                        if joined.unicode_len() > 0 {
                            push_pair(&mut parts, string_from_str(category), joined);
                        }
                    },
                    None => {},
                }
            },
        }
        k = k + 1;
    }
    match (person_str, number_str) {
        (Some(person), Some(number)) => {
            let short = if str_eq(number.as_str(), "Singular") {
                string_from_str("s")
            } else if str_eq(number.as_str(), "Plural") {
                string_from_str("p")
            } else if str_eq(number.as_str(), "Dual") {
                string_from_str("d")
            } else {
                number.clone()
            };
            let mut combined = person.clone();
            combined.append(short.as_str());
            push_pair(&mut parts, string_from_str("person_number"), combined);
        },
        (Some(person), None) => push_pair(&mut parts, string_from_str("person"), person),
        (None, Some(number)) => push_pair(&mut parts, string_from_str("number"), number),
        (None, None) => {},
    }
    parts
}

/// The analysis text of a row: its tag texts joined with ` • `.
pub fn render_analysis(row: &QuizRow, constants: &ConstantTable) -> (r: String)
    ensures
        r@ == analysis_text(row@, constants@),
{
    let pairs = render_tag_pairs(row, constants);
    let mut values: Vec<String> = Vec::new();
    let mut i: usize = 0;
    while i < pairs.len()
        invariant
            i <= pairs@.len(),
            pairs.deep_view() == tag_pairs(row@, constants@),
            values.deep_view() == pairs.deep_view().map_values(|p: (Seq<char>, Seq<char>)| p.1).take(i as int),
        decreases pairs@.len() - i,
    {
        let ghost before = values.deep_view();
        let v = pairs[i].1.clone();
        values.push(v);
        assert(values.deep_view() =~= before.push(v@));
        i = i + 1;
        assert(values.deep_view() =~= pairs.deep_view().map_values(|p: (Seq<char>, Seq<char>)| p.1).take(i as int));
    }
    assert(pairs.deep_view().map_values(|p: (Seq<char>, Seq<char>)| p.1).take(i as int) =~= pairs.deep_view().map_values(|p: (Seq<char>, Seq<char>)| p.1));
    join_strings(values.as_slice(), " • ")
}


/// The tag categories that count towards similarity (two points each).
pub open spec fn similarity_tag_keys() -> Seq<Seq<char>> {
    seq!["case"@, "number"@, "gender"@, "tense"@, "voice"@, "mood"@, "person"@]
}

/// The lemma attribute categories that count towards similarity (one point each).
pub open spec fn similarity_attribute_keys() -> Seq<Seq<char>> {
    seq!["declension"@, "grammatical_class"@, "dialect"@, "type"@]
}

fn similarity_tag_key(k: usize) -> (r: &'static str)
    requires
        k < 7,
    ensures
        r@ == similarity_tag_keys()[k as int],
{
    match k {
        0 => "case",
        1 => "number",
        2 => "gender",
        3 => "tense",
        4 => "voice",
        5 => "mood",
        _ => "person",
    }
}

fn similarity_attribute_key(k: usize) -> (r: &'static str)
    requires
        k < 4,
    ensures
        r@ == similarity_attribute_keys()[k as int],
{
    match k {
        0 => "declension",
        1 => "grammatical_class",
        2 => "dialect",
        _ => "type",
    }
}

/// Two points for each of the first `k` tag keys on which the rows agree.
pub open spec fn tag_agreement(left: QuizRowView, right: QuizRowView, k: nat) -> nat
    decreases k,
{
    if k == 0 {
        0
    } else {
        let key = similarity_tag_keys()[k - 1];
        tag_agreement(left, right, (k - 1) as nat) + if assoc_get(left.constant_ids, key) == assoc_get(
            right.constant_ids,
            key,
        ) {
            2nat
        } else {
            0nat
        }
    }
}

/// One point for each of the first `k` attribute keys on which the lemmas agree.
pub open spec fn attribute_agreement(left: QuizRowView, right: QuizRowView, k: nat) -> nat
    decreases k,
{
    if k == 0 {
        0
    } else {
        let key = similarity_attribute_keys()[k - 1];
        attribute_agreement(left, right, (k - 1) as nat) + if assoc_get(left.lemma_attributes, key)
            == assoc_get(right.lemma_attributes, key) {
            1nat
        } else {
            0nat
        }
    }
}

/// How grammatically close two rows are: eight points for the same lemma, two
/// per shared tag, one per shared lemma attribute.
pub open spec fn similarity(left: QuizRowView, right: QuizRowView) -> nat {
    (if left.lemma_id == right.lemma_id { 8nat } else { 0nat }) + tag_agreement(left, right, 7)
        + attribute_agreement(left, right, 4)
}

fn constants_equal(a: &Vec<GrammarConstant>, b: &Vec<GrammarConstant>) -> (r: bool)
    ensures
        r == (crate::models::constant_views(a@) == crate::models::constant_views(b@)),
{
    if a.len() != b.len() {
        assert(crate::models::constant_views(a@).len() != crate::models::constant_views(b@).len());
        return false;
    }
    let mut i: usize = 0;
    while i < a.len()
        invariant
            a@.len() == b@.len(),
            i <= a@.len(),
            forall|j: int| 0 <= j < i ==> a@[j]@ == b@[j]@,
        decreases a@.len() - i,
    {
        let x = &a[i];
        let y = &b[i];
        if !(x.id == y.id && x.category == y.category && x.label == y.label && x.display_label
            == y.display_label && x.sort_order == y.sort_order) {
            assert(crate::models::constant_views(a@)[i as int] != crate::models::constant_views(b@)[i as int]);
            return false;
        }
        i = i + 1;
    }
    assert(crate::models::constant_views(a@) =~= crate::models::constant_views(b@));
    true
}

/// The similarity of two rows (see `similarity`).
pub fn similarity_score(left: &QuizRow, right: &QuizRow) -> (r: usize)
    ensures
        r == similarity(left@, right@),
        r <= 26,
{
    let mut score: usize = 0;
    if left.lemma_id == right.lemma_id {
        score = score + 8;
    }
    let ghost base: nat = score as nat;
    let mut k: usize = 0;
    while k < 7
        invariant
            k <= 7,
            base <= 8,
            score == base + tag_agreement(left@, right@, k as nat),
            tag_agreement(left@, right@, k as nat) <= 2 * k,
        decreases 7 - k,
    {
        let key = similarity_tag_key(k);
        if left.constant_ids.get(key) == right.constant_ids.get(key) {
            score = score + 2;
        }
        k = k + 1;
    }
    let ghost mid: nat = score as nat;
    let mut k: usize = 0;
    while k < 4
        invariant
            k <= 4,
            mid <= 22,
            score == mid + attribute_agreement(left@, right@, k as nat),
            attribute_agreement(left@, right@, k as nat) <= k,
        decreases 4 - k,
    {
        let key = similarity_attribute_key(k);
        let same = match (left.lemma_attributes.get(key), right.lemma_attributes.get(key)) {
            (Some(a), Some(b)) => constants_equal(a, b),
            (None, None) => true,
            _ => false,
        };
        if same {
            score = score + 1;
        }
        k = k + 1;
    }
    score
}

/// Whether `row` may stand beside `correct` as a distractor: another
/// inflection of the same part of speech or of the same lemma.
pub open spec fn is_similar_candidate(row: QuizRowView, correct: QuizRowView, correct_pos: Option<i64>) -> bool {
    &&& row.inflection_id != correct.inflection_id
    &&& (correct_pos is None || assoc_get(row.constant_ids, "part_of_speech"@) == correct_pos
        || row.lemma_id == correct.lemma_id)
}

/// The rows that may stand beside `correct`, in their order.
pub open spec fn similar_candidates(
    rows: Seq<QuizRowView>,
    correct: QuizRowView,
    correct_pos: Option<i64>,
) -> Seq<QuizRowView>
    decreases rows.len(),
{
    if rows.len() == 0 {
        Seq::empty()
    } else if is_similar_candidate(rows.last(), correct, correct_pos) {
        similar_candidates(rows.drop_last(), correct, correct_pos).push(rows.last())
    } else {
        similar_candidates(rows.drop_last(), correct, correct_pos)
    }
}

/// Where a row of the given score goes in a list ranked by decreasing score:
/// after every row that scores at least as much.
pub open spec fn rank_position(sorted: Seq<QuizRowView>, score: nat, correct: QuizRowView) -> nat
    decreases sorted.len(),
{
    if sorted.len() == 0 {
        0
    } else if similarity(correct, sorted[0]) < score {
        0
    } else {
        1 + rank_position(sorted.drop_first(), score, correct)
    }
}

/// The rows ranked by decreasing similarity to `correct`; rows of equal
/// similarity keep their order.
pub open spec fn ranked_by_similarity(rows: Seq<QuizRowView>, correct: QuizRowView) -> Seq<QuizRowView>
    decreases rows.len(),
{
    if rows.len() == 0 {
        Seq::empty()
    } else {
        let sorted = ranked_by_similarity(rows.drop_last(), correct);
        sorted.insert(rank_position(sorted, similarity(correct, rows.last()), correct) as int, rows.last())
    }
}

proof fn lemma_rank_position_bound(sorted: Seq<QuizRowView>, score: nat, correct: QuizRowView)
    ensures
        rank_position(sorted, score, correct) <= sorted.len(),
    decreases sorted.len(),
{
    if sorted.len() > 0 {
        lemma_rank_position_bound(sorted.drop_first(), score, correct);
    }
}

proof fn lemma_ranked_len(rows: Seq<QuizRowView>, correct: QuizRowView)
    ensures
        ranked_by_similarity(rows, correct).len() == rows.len(),
    decreases rows.len(),
{
    if rows.len() > 0 {
        lemma_ranked_len(rows.drop_last(), correct);
        let sorted = ranked_by_similarity(rows.drop_last(), correct);
        lemma_rank_position_bound(sorted, similarity(correct, rows.last()), correct);
    }
}

/// The other rows of the same part of speech (or lemma) as `correct`, the
/// most similar first.
pub fn ranked_similar_rows(rows: &[QuizRow], correct: &QuizRow, correct_pos: Option<i64>) -> (r: Vec<QuizRow>)
    ensures
        crate::models::row_views(r@) == ranked_by_similarity(
            similar_candidates(crate::models::row_views(rows@), correct@, correct_pos),
            correct@,
        ),
{
    let ghost all = crate::models::row_views(rows@);
    let mut sorted: Vec<QuizRow> = Vec::new();
    let mut scores: Vec<usize> = Vec::new();
    let mut i: usize = 0;
    assert(all.take(0) =~= Seq::<QuizRowView>::empty());
    assert(crate::models::row_views(sorted@) =~= Seq::<QuizRowView>::empty());
    while i < rows.len()
        invariant
            all == crate::models::row_views(rows@),
            i <= rows@.len(),
            scores@.len() == sorted@.len(),
            forall|j: int| 0 <= j < sorted@.len() ==> scores@[j] == similarity(correct@, #[trigger] sorted@[j]@),
            crate::models::row_views(sorted@) == ranked_by_similarity(
                similar_candidates(all.take(i as int), correct@, correct_pos),
                correct@,
            ),
        decreases rows@.len() - i,
    {
        let row = &rows[i];
        proof {
            assert(all.take(i + 1).drop_last() =~= all.take(i as int));
            assert(all.take(i + 1).last() == row@);
        }
        let keep = row.inflection_id != correct.inflection_id && (correct_pos.is_none()
            || row.constant_ids.get("part_of_speech") == correct_pos || row.lemma_id
            == correct.lemma_id);
        if keep {
            let score = similarity_score(correct, row);
            let ghost before = crate::models::row_views(sorted@);
            let mut pos: usize = 0;
            assert(before.skip(0) =~= before);
            while pos < sorted.len() && scores[pos] >= score
                invariant
                    scores@.len() == sorted@.len(),
                    pos <= sorted@.len(),
                    before == crate::models::row_views(sorted@),
                    forall|j: int| 0 <= j < sorted@.len() ==> scores@[j] == similarity(correct@, #[trigger] sorted@[j]@),
                    rank_position(before, score as nat, correct@) == pos + rank_position(
                        before.skip(pos as int),
                        score as nat,
                        correct@,
                    ),
                decreases sorted@.len() - pos,
            {
                assert(before.skip(pos as int).drop_first() =~= before.skip(pos + 1));
                assert(before.skip(pos as int)[0] == sorted@[pos as int]@);
                pos = pos + 1;
            }
            proof {
                if pos < sorted@.len() {
                    assert(before.skip(pos as int)[0] == sorted@[pos as int]@);
                }
            }
            let copy = row.duplicate();
            let ghost old_sorted = sorted@;
            let ghost old_scores = scores@;
            sorted.insert(pos, copy);
            scores.insert(pos, score);
            proof {
                assert(rank_position(before, score as nat, correct@) == pos);
                let c = similar_candidates(all.take(i as int), correct@, correct_pos);
                assert(is_similar_candidate(row@, correct@, correct_pos));
                assert(similar_candidates(all.take(i + 1), correct@, correct_pos) == c.push(row@));
                assert(c.push(row@).drop_last() =~= c);
                assert(ranked_by_similarity(c.push(row@), correct@) == before.insert(pos as int, row@));
                assert(crate::models::row_views(sorted@) =~= before.insert(pos as int, row@));
                assert forall|j: int| 0 <= j < sorted@.len() implies scores@[j] == similarity(correct@, #[trigger] sorted@[j]@) by {
                    if j < pos {
                        assert(sorted@[j] == old_sorted[j] && scores@[j] == old_scores[j]);
                    } else if j == pos {
                    } else {
                        assert(sorted@[j] == old_sorted[j - 1] && scores@[j] == old_scores[j - 1]);
                    }
                }
            }
        }
        else {
            assert(!is_similar_candidate(row@, correct@, correct_pos));
        }
        i = i + 1;
    }
    assert(all.take(i as int) =~= all);
    sorted
}


/// `SliceRandom::shuffle` with the thread's generator (`rand::rng()`): the same
/// items, in an order chosen at random.
#[verifier::external_body]
fn shuffle<T>(v: &mut Vec<T>)
    ensures
        final(v)@.to_multiset() == old(v)@.to_multiset(),
{
    v.shuffle(&mut rand::rng());
}

/// `p` lists each index below `n` exactly once.
pub open spec fn is_order(p: Seq<usize>, n: nat) -> bool {
    &&& p.len() == n
    &&& p.no_duplicates()
    &&& forall|i: int| 0 <= i < p.len() ==> #[trigger] p[i] < n
    &&& forall|j: usize| j < n ==> #[trigger] p.contains(j)
}

proof fn lemma_order_from_multiset(p: Seq<usize>, n: nat)
    requires
        n <= usize::MAX,
        p.to_multiset() == Seq::new(n, |i: int| i as usize).to_multiset(),
    ensures
        is_order(p, n),
{
    let r = Seq::new(n, |i: int| i as usize);
    p.to_multiset_ensures();
    r.to_multiset_ensures();
    assert(r.no_duplicates());
    r.lemma_multiset_has_no_duplicates();
    p.lemma_multiset_has_no_duplicates_conv();
    assert forall|i: int| 0 <= i < p.len() implies #[trigger] p[i] < n by {
        assert(p.contains(p[i]));
        assert(p.to_multiset().count(p[i]) > 0);
        assert(r.to_multiset().count(p[i]) > 0);
        assert(r.contains(p[i]));
    }
    assert forall|j: usize| j < n implies #[trigger] p.contains(j) by {
        assert(r[j as int] == j);
        assert(r.contains(j));
        assert(r.to_multiset().count(j) > 0);
        assert(p.to_multiset().count(j) > 0);
    }
}

/// The indices below `n` in an order chosen at random.
pub fn random_order(n: usize) -> (p: Vec<usize>)
    ensures
        is_order(p@, n as nat),
{
    let mut v: Vec<usize> = Vec::new();
    let mut i: usize = 0;
    while i < n
        invariant
            i <= n,
            v@ == Seq::new(i as nat, |k: int| k as usize),
        decreases n - i,
    {
        v.push(i);
        i = i + 1;
        assert(v@ =~= Seq::new(i as nat, |k: int| k as usize));
    }
    let ghost before = v@;
    shuffle(&mut v);
    proof {
        lemma_order_from_multiset(v@, n as nat);
    }
    v
}

/// The items of `s` in order, leaving out those already in `seen` or seen
/// earlier in `s`.
pub open spec fn fresh_items(s: Seq<Seq<char>>, seen: Seq<Seq<char>>) -> Seq<Seq<char>>
    decreases s.len(),
{
    if s.len() == 0 {
        Seq::empty()
    } else {
        let r = fresh_items(s.drop_last(), seen);
        if seen.contains(s.last()) || r.contains(s.last()) {
            r
        } else {
            r.push(s.last())
        }
    }
}

proof fn lemma_fresh_items(s: Seq<Seq<char>>, seen: Seq<Seq<char>>)
    ensures
        fresh_items(s, seen).no_duplicates(),
        forall|x: Seq<char>| #[trigger] fresh_items(s, seen).contains(x) ==> !seen.contains(x) && s.contains(x),
        forall|x: Seq<char>| s.contains(x) && !seen.contains(x) ==> #[trigger] fresh_items(s, seen).contains(x),
    decreases s.len(),
{
    if s.len() > 0 {
        lemma_fresh_items(s.drop_last(), seen);
        let r = fresh_items(s.drop_last(), seen);
        assert forall|x: Seq<char>| #[trigger] fresh_items(s, seen).contains(x) implies !seen.contains(x) && s.contains(x) by {
            if r.contains(x) {
                assert(s.drop_last().contains(x));
                let i = choose|i: int| 0 <= i < s.drop_last().len() && s.drop_last()[i] == x;
                assert(s[i] == x);
            } else {
                assert(x == s.last());
                assert(s[s.len() - 1] == x);
            }
        }
        assert forall|x: Seq<char>| s.contains(x) && !seen.contains(x) implies #[trigger] fresh_items(s, seen).contains(x) by {
            let i = choose|i: int| 0 <= i < s.len() && s[i] == x;
            if i < s.len() - 1 {
                assert(s.drop_last()[i] == x);
                assert(r.contains(x));
                if !r.contains(s.last()) && !seen.contains(s.last()) {
                    let j = choose|j: int| 0 <= j < r.len() && r[j] == x;
                    assert(r.push(s.last())[j] == x);
                }
            } else {
                if !r.contains(s.last()) {
                    assert(r.push(s.last())[r.len() as int] == x);
                }
            }
        }
        if !seen.contains(s.last()) && !r.contains(s.last()) {
            let t = r.push(s.last());
            assert forall|i: int, j: int| 0 <= i < t.len() && 0 <= j < t.len() && i != j implies t[i] != t[j] by {
                if i == r.len() {
                    assert(r.contains(t[j]));
                } else if j == r.len() {
                    assert(r.contains(t[i]));
                }
            }
        }
    }
}

fn contains_string(v: &Vec<String>, x: &String) -> (r: bool)
    ensures
        r == v.deep_view().contains(x@),
{
    let mut i: usize = 0;
    while i < v.len()
        invariant
            i <= v@.len(),
            forall|j: int| 0 <= j < i ==> v.deep_view()[j] != x@,
        decreases v@.len() - i,
    {
        if v[i] == *x {
            assert(v.deep_view()[i as int] == x@);
            return true;
        }
        i = i + 1;
    }
    false
}

/// Five distinct labels for the wrong options: all from `close` when it has at
/// least five, otherwise all of `close` and the rest from `far`.
pub open spec fn valid_picks(close: Seq<Seq<char>>, far: Seq<Seq<char>>, picks: Seq<Seq<char>>) -> bool {
    &&& picks.len() == 5
    &&& picks.no_duplicates()
    &&& forall|k: int| 0 <= k < 5 ==> close.contains(#[trigger] picks[k]) || far.contains(picks[k])
    &&& if close.len() >= 5 {
        forall|k: int| 0 <= k < 5 ==> close.contains(#[trigger] picks[k])
    } else {
        forall|i: int| 0 <= i < close.len() ==> picks.contains(#[trigger] close[i])
    }
}

/// Picks the labels of the five wrong options at random, the close ones first.
fn pick_five(close: &Vec<String>, far: &Vec<String>) -> (picks: Vec<String>)
    requires
        close.deep_view().no_duplicates(),
        far.deep_view().no_duplicates(),
        forall|x: Seq<char>| close.deep_view().contains(x) ==> !far.deep_view().contains(x),
        close@.len() + far@.len() >= 5,
    ensures
        valid_picks(close.deep_view(), far.deep_view(), picks.deep_view()),
{
    let oc = random_order(close.len());
    let of = random_order(far.len());
    let nc = close.len();
    let mut picks: Vec<String> = Vec::new();
    let mut k: usize = 0;
    let ghost cv = close.deep_view();
    let ghost fv = far.deep_view();
    while k < 5
        invariant
            k <= 5,
            nc == close@.len(),
            nc + far@.len() >= 5,
            cv == close.deep_view(),
            fv == far.deep_view(),
            is_order(oc@, nc as nat),
            is_order(of@, far@.len()),
            picks@.len() == k,
            forall|t: int| 0 <= t < k && t < nc ==> #[trigger] picks.deep_view()[t] == cv[oc@[t] as int],
            forall|t: int| 0 <= t < k && t >= nc ==> #[trigger] picks.deep_view()[t] == fv[of@[t - nc] as int],
        decreases 5 - k,
    {
        let ghost before = picks.deep_view();
        let item = if k < nc {
            close[oc[k]].clone()
        } else {
            far[of[k - nc]].clone()
        };
        picks.push(item);
        assert(picks.deep_view() =~= before.push(item@));
        k = k + 1;
    }
    proof {
        let pv = picks.deep_view();
        assert forall|t: int| 0 <= t < 5 implies cv.contains(#[trigger] pv[t]) || fv.contains(pv[t]) by {
            if t < nc {
                assert(oc@.contains(oc@[t]));
                assert(cv[oc@[t] as int] == pv[t]);
            } else {
                assert(of@[t - nc] < fv.len());
                assert(fv[of@[t - nc] as int] == pv[t]);
            }
        }
        assert forall|i: int, j: int| 0 <= i < 5 && 0 <= j < 5 && i != j implies pv[i] != pv[j] by {
            if i < nc && j < nc {
                assert(oc@[i] != oc@[j]);
                assert(oc@[i] < nc && oc@[j] < nc);
            } else if i >= nc && j >= nc {
                assert(of@[i - nc] != of@[j - nc]);
                assert(of@[i - nc] < fv.len() && of@[j - nc] < fv.len());
            } else if i < nc {
                assert(cv.contains(pv[i]));
                assert(of@[j - nc] < fv.len());
                assert(fv.contains(pv[j]));
            } else {
                assert(cv.contains(pv[j]));
                assert(of@[i - nc] < fv.len());
                assert(fv.contains(pv[i]));
            }
        }
        if nc < 5 {
            assert forall|i: int| 0 <= i < nc implies pv.contains(#[trigger] cv[i]) by {
                assert(oc@.contains(i as usize));
                let t = choose|t: int| 0 <= t < oc@.len() && oc@[t] == i as usize;
                assert(pv[t] == cv[i]);
            }
        } else {
            assert forall|k: int| 0 <= k < 5 implies cv.contains(#[trigger] pv[k]) by {
                assert(oc@[k] < nc);
                assert(cv[oc@[k] as int] == pv[k]);
            }
        }
    }
    picks
}

/// The options before they are shuffled: the correct one, then the five picks
/// with ids made of `prefix` and their position.
pub open spec fn ordered_options(
    correct_id: Seq<char>,
    correct_label: Seq<char>,
    prefix: Seq<char>,
    picks: Seq<Seq<char>>,
) -> Seq<(Seq<char>, Seq<char>)> {
    seq![(correct_id, correct_label)] + Seq::new(5, |k: int| (prefix + decimal(k + 1), picks[k]))
}

/// `options` holds the entries of `ordered` in the order `p`.
pub open spec fn reordered(options: Seq<(Seq<char>, Seq<char>)>, ordered: Seq<(Seq<char>, Seq<char>)>) -> bool {
    exists|p: Seq<usize>|
        #[trigger] is_order(p, ordered.len()) && options == Seq::new(
            ordered.len(),
            |k: int| ordered[p[k] as int],
        )
}

/// The options of a multiple-choice question, in an order chosen at random.
fn build_options(correct_id: &String, correct_label: &String, prefix: &str, picks: &Vec<String>) -> (r: Vec<AnswerOption>)
    requires
        picks@.len() == 5,
    ensures
        reordered(option_views(r@), ordered_options(correct_id@, correct_label@, prefix@, picks.deep_view())),
{
    let ghost ordered = ordered_options(correct_id@, correct_label@, prefix@, picks.deep_view());
    let mut pre: Vec<AnswerOption> = Vec::new();
    pre.push(AnswerOption { id: correct_id.clone(), label: correct_label.clone() });
    let mut k: usize = 0;
    while k < 5
        invariant
            k <= 5,
            picks@.len() == 5,
            ordered == ordered_options(correct_id@, correct_label@, prefix@, picks.deep_view()),
            pre@.len() == k + 1,
            option_views(pre@) == ordered.take(k + 1),
        decreases 5 - k,
    {
        let id = prefixed_decimal(prefix, (k + 1) as i64);
        let ghost before = option_views(pre@);
        let o = AnswerOption { id, label: picks[k].clone() };
        pre.push(o);
        assert(option_views(pre@) =~= before.push((o.id@, o.label@)));
        k = k + 1;
        assert(option_views(pre@) =~= ordered.take(k + 1));
    }
    assert(ordered.take(6) =~= ordered);
    let p = random_order(6);
    let mut out: Vec<AnswerOption> = Vec::new();
    let mut j: usize = 0;
    while j < 6
        invariant
            j <= 6,
            pre@.len() == 6,
            option_views(pre@) == ordered,
            is_order(p@, 6),
            option_views(out@) == Seq::new(6, |k: int| ordered[p@[k] as int]).take(j as int),
        decreases 6 - j,
    {
        let src = &pre[p[j]];
        let ghost before = option_views(out@);
        let o = AnswerOption { id: src.id.clone(), label: src.label.clone() };
        out.push(o);
        assert(option_views(out@) =~= before.push((o.id@, o.label@)));
        j = j + 1;
        assert(option_views(out@) =~= Seq::new(6, |k: int| ordered[p@[k] as int]).take(j as int));
    }
    assert(option_views(out@) =~= Seq::new(6, |k: int| ordered[p@[k] as int]));
    assert(is_order(p@, ordered.len()));
    out
}


/// The part-of-speech constant of a row.
pub open spec fn part_of_speech(c: QuizRowView) -> Option<i64> {
    assoc_get(c.constant_ids, "part_of_speech"@)
}

/// The analysis texts of some rows.
pub open spec fn analyses_of(rows: Seq<QuizRowView>, constants: Seq<ConstantView>) -> Seq<Seq<char>> {
    rows.map_values(|r: QuizRowView| analysis_text(r, constants))
}

/// The forms of some rows.
pub open spec fn forms_of(rows: Seq<QuizRowView>) -> Seq<Seq<char>> {
    rows.map_values(|r: QuizRowView| r.form)
}

/// The analyses of the rows that have the lemma and the form of `c`.
pub open spec fn same_form_analyses(
    rows: Seq<QuizRowView>,
    constants: Seq<ConstantView>,
    c: QuizRowView,
) -> Seq<Seq<char>>
    decreases rows.len(),
{
    if rows.len() == 0 {
        Seq::empty()
    } else {
        let r = same_form_analyses(rows.drop_last(), constants, c);
        if rows.last().lemma_id == c.lemma_id && rows.last().form == c.form {
            r.push(analysis_text(rows.last(), constants))
        } else {
            r
        }
    }
}

/// The distinct analyses that the form of `c` has within its lemma.
pub open spec fn parse_labels(rows: Seq<QuizRowView>, constants: Seq<ConstantView>, c: QuizRowView) -> Seq<Seq<char>> {
    fresh_items(same_form_analyses(rows, constants, c), Seq::empty())
}

/// The distinct analyses of the rows similar to `c`, the most similar first,
/// other than `label`.
pub open spec fn parse_pool(
    rows: Seq<QuizRowView>,
    constants: Seq<ConstantView>,
    c: QuizRowView,
    label: Seq<char>,
) -> Seq<Seq<char>> {
    fresh_items(
        analyses_of(ranked_by_similarity(similar_candidates(rows, c, part_of_speech(c)), c), constants),
        seq![label],
    )
}

/// Whether an analysis differs from `label` in one to three tags.
pub open spec fn close_analysis(label: Seq<char>) -> spec_fn(Seq<char>) -> bool {
    |x: Seq<char>| 1 <= tag_differences(label, x) <= 3
}

/// Whether an analysis differs from `label` in no tag or in more than three.
pub open spec fn far_analysis(label: Seq<char>) -> spec_fn(Seq<char>) -> bool {
    |x: Seq<char>| !(1 <= tag_differences(label, x) <= 3)
}

/// Whether a form-to-analysis question can be made for `c`: its form has one
/// analysis, and five other analyses are at hand.
pub open spec fn parse_question_exists(rows: Seq<QuizRowView>, constants: Seq<ConstantView>, c: QuizRowView) -> bool {
    let labels = parse_labels(rows, constants, c);
    labels.len() == 1 && parse_pool(rows, constants, c, labels[0]).len() >= 5
}

/// The fields that every new, unanswered question has.
pub open spec fn unanswered(q: QuestionView) -> bool {
    &&& q.selected_option_id is None
    &&& q.text_entry.len() == 0
    &&& q.submitted_text is None
}

/// `q` is a form-to-analysis question about `c`: the form is shown, the
/// correct option is its analysis, and five other analyses are the wrong
/// options, preferably ones that differ in one to three tags.
pub open spec fn is_parse_question(
    rows: Seq<QuizRowView>,
    constants: Seq<ConstantView>,
    c: QuizRowView,
    q: QuestionView,
) -> bool {
    let label = parse_labels(rows, constants, c)[0];
    let pool = parse_pool(rows, constants, c, label);
    let id = "parse:"@ + decimal(c.inflection_id as int);
    &&& q.lemma_id == c.lemma_id
    &&& q.mode == QuizMode::ParseForm
    &&& q.prompt == c.form
    &&& q.clue is None
    &&& q.correct_option_ids == seq![id]
    &&& q.accepted_text_answers.len() == 0
    &&& unanswered(q)
    &&& exists|picks: Seq<Seq<char>>|
        #[trigger] valid_picks(pool.filter(close_analysis(label)), pool.filter(far_analysis(label)), picks)
            && reordered(q.options, ordered_options(id, label, "analysis:"@, picks))
}

proof fn lemma_filter_parts(s: Seq<Seq<char>>, p: spec_fn(Seq<char>) -> bool)
    ensures
        s.no_duplicates() ==> s.filter(p).no_duplicates(),
        forall|x: Seq<char>| #[trigger] s.filter(p).contains(x) ==> s.contains(x) && p(x),
    decreases s.len(),
{
    reveal(Seq::filter);
    if s.len() > 0 {
        lemma_filter_parts(s.drop_last(), p);
        let r = s.drop_last().filter(p);
        assert forall|x: Seq<char>| #[trigger] s.filter(p).contains(x) implies s.contains(x) && p(x) by {
            if r.contains(x) {
                let i = choose|i: int| 0 <= i < s.drop_last().len() && s.drop_last()[i] == x;
                assert(s[i] == x);
            } else {
                assert(s[s.len() - 1] == x);
            }
        }
        if s.no_duplicates() {
            assert(s.drop_last().no_duplicates()) by {
                assert forall|i: int, j: int| 0 <= i < s.len() - 1 && 0 <= j < s.len() - 1 && i != j implies s.drop_last()[i] != s.drop_last()[j] by {
                    assert(s.drop_last()[i] == s[i] && s.drop_last()[j] == s[j]);
                }
            }
            if p(s.last()) {
                let t = r.push(s.last());
                assert(!r.contains(s.last())) by {
                    if r.contains(s.last()) {
                        let i = choose|i: int| 0 <= i < s.drop_last().len() && s.drop_last()[i] == s.last();
                        assert(s[i] == s[s.len() - 1]);
                    }
                }
                assert forall|i: int, j: int| 0 <= i < t.len() && 0 <= j < t.len() && i != j implies t[i] != t[j] by {
                    if i == r.len() {
                        assert(r.contains(t[j]));
                    } else if j == r.len() {
                        assert(r.contains(t[i]));
                    }
                }
            }
        }
    }
}

fn push_string(v: &mut Vec<String>, x: String)
    ensures
        final(v).deep_view() == old(v).deep_view().push(x@),
{
    v.push(x);
    assert(v.deep_view() =~= old(v).deep_view().push(x@));
}

/// A form-to-analysis question about `correct`, or `None` when its form has
/// more than one analysis or too few other analyses are at hand.
pub fn generate_parse_question(rows: &[QuizRow], constants: &ConstantTable, correct: &QuizRow) -> (r: Option<Question>)
    ensures
        r is Some <==> parse_question_exists(crate::models::row_views(rows@), constants@, correct@),
        r matches Some(q) ==> is_parse_question(crate::models::row_views(rows@), constants@, correct@, q@),
{
    let ghost all = crate::models::row_views(rows@);
    let mut analyses: Vec<String> = Vec::new();
    let mut i: usize = 0;
    assert(all.take(0) =~= Seq::<QuizRowView>::empty());
    while i < rows.len()
        invariant
            all == crate::models::row_views(rows@),
            i <= rows@.len(),
            analyses.deep_view() == fresh_items(same_form_analyses(all.take(i as int), constants@, correct@), Seq::empty()),
        decreases rows@.len() - i,
    {
        let row = &rows[i];
        proof {
            assert(all.take(i + 1).drop_last() =~= all.take(i as int));
            assert(all.take(i + 1).last() == row@);
        }
        if row.lemma_id == correct.lemma_id && row.form == correct.form {
            let a = render_analysis(row, constants);
            proof {
                let prev = same_form_analyses(all.take(i as int), constants@, correct@);
                assert(same_form_analyses(all.take(i + 1), constants@, correct@) == prev.push(a@));
                assert(prev.push(a@).drop_last() =~= prev);
            }
            if !contains_string(&analyses, &a) {
                push_string(&mut analyses, a);
            }
        }
        i = i + 1;
    }
    assert(all.take(i as int) =~= all);
    if analyses.len() != 1 {
        return None;
    }
    let correct_label = analyses[0].clone();
    let correct_pos = correct.constant_ids.get("part_of_speech");
    let ranked = ranked_similar_rows(rows, correct, correct_pos);
    let ghost ranked_labels = analyses_of(crate::models::row_views(ranked@), constants@);
    let ghost label = correct_label@;
    let mut seen: Vec<String> = Vec::new();
    push_string(&mut seen, correct_label.clone());
    let mut close: Vec<String> = Vec::new();
    let mut far: Vec<String> = Vec::new();
    let mut k: usize = 0;
    proof {
        reveal(Seq::filter);
        assert(ranked_labels.take(0) =~= Seq::<Seq<char>>::empty());
        assert(seen.deep_view() =~= seq![label] + Seq::<Seq<char>>::empty());
    }
    while k < ranked.len()
        invariant
            k <= ranked@.len(),
            ranked_labels == analyses_of(crate::models::row_views(ranked@), constants@),
            label == correct_label@,
            seen.deep_view() == seq![label] + fresh_items(ranked_labels.take(k as int), seq![label]),
            close.deep_view() == fresh_items(ranked_labels.take(k as int), seq![label]).filter(close_analysis(label)),
            far.deep_view() == fresh_items(ranked_labels.take(k as int), seq![label]).filter(far_analysis(label)),
            close.deep_view().len() + far.deep_view().len() == fresh_items(ranked_labels.take(k as int), seq![label]).len(),
        decreases ranked@.len() - k,
    {
        let a = render_analysis(&ranked[k], constants);
        let ghost prefix = ranked_labels.take(k as int);
        let ghost fresh = fresh_items(prefix, seq![label]);
        proof {
            reveal(Seq::filter);
            assert(ranked_labels.take(k + 1).drop_last() =~= prefix);
            assert(ranked_labels.take(k + 1).last() == a@);
        }
        if !contains_string(&seen, &a) {
            proof {
                assert(!(seq![label] + fresh).contains(a@));
                assert(!seq![label].contains(a@)) by {
                    if seq![label].contains(a@) {
                        assert((seq![label] + fresh)[0] == a@);
                    }
                }
                assert(!fresh.contains(a@)) by {
                    if fresh.contains(a@) {
                        let j = choose|j: int| 0 <= j < fresh.len() && fresh[j] == a@;
                        assert((seq![label] + fresh)[j + 1] == a@);
                    }
                }
                assert(fresh_items(ranked_labels.take(k + 1), seq![label]) == fresh.push(a@));
                assert(fresh.push(a@).drop_last() =~= fresh);
            }
            let d = tag_diff_count(correct_label.as_str(), a.as_str());
            push_string(&mut seen, a.clone());
            assert(seen.deep_view() =~= seq![label] + fresh.push(a@));
            if d >= 1 && d <= 3 {
                push_string(&mut close, a);
            } else {
                push_string(&mut far, a);
            }
        } else {
            proof {
                if seq![label].contains(a@) {
                } else {
                    let j = choose|j: int| 0 <= j < (seq![label] + fresh).len() && (seq![label] + fresh)[j] == a@;
                    assert(fresh[j - 1] == a@);
                    assert(fresh.contains(a@));
                }
                assert(fresh_items(ranked_labels.take(k + 1), seq![label]) == fresh);
            }
        }
        k = k + 1;
    }
    let ghost pool = fresh_items(ranked_labels, seq![label]);
    proof {
        assert(ranked_labels.take(k as int) =~= ranked_labels);
        lemma_fresh_items(parse_labels(all, constants@, correct@), Seq::empty());
        assert(pool == parse_pool(all, constants@, correct@, label));
    }
    if far.len() < 5 && close.len() < 5 - far.len() {
        return None;
    }
    proof {
        lemma_fresh_items(ranked_labels, seq![label]);
        lemma_filter_parts(pool, close_analysis(label));
        lemma_filter_parts(pool, far_analysis(label));
    }
    let picks = pick_five(&close, &far);
    let id = prefixed_decimal("parse:", correct.inflection_id);
    let options = build_options(&id, &correct_label, "analysis:", &picks);
    let mut correct_option_ids: Vec<String> = Vec::new();
    push_string(&mut correct_option_ids, id);
    let q = Question {
        lemma_id: correct.lemma_id,
        mode: QuizMode::ParseForm,
        prompt: correct.form.clone(),
        clue: None,
        options,
        correct_option_ids,
        selected_option_id: None,
        accepted_text_answers: Vec::new(),
        text_entry: String::new(),
        submitted_text: None,
    };
    proof {
        assert(q@.correct_option_ids =~= seq!["parse:"@ + decimal(correct@.inflection_id as int)]);
        assert(valid_picks(pool.filter(close_analysis(label)), pool.filter(far_analysis(label)), picks.deep_view()));
    }
    Some(q)
}


proof fn lemma_similar_members(rows: Seq<QuizRowView>, correct: QuizRowView, pos: Option<i64>)
    ensures
        forall|x: QuizRowView| #[trigger] similar_candidates(rows, correct, pos).contains(x) ==> rows.contains(x),
    decreases rows.len(),
{
    if rows.len() > 0 {
        lemma_similar_members(rows.drop_last(), correct, pos);
        assert forall|x: QuizRowView| #[trigger] similar_candidates(rows, correct, pos).contains(x) implies rows.contains(x) by {
            let r = similar_candidates(rows.drop_last(), correct, pos);
            if r.contains(x) {
                let i = choose|i: int| 0 <= i < rows.drop_last().len() && rows.drop_last()[i] == x;
                assert(rows[i] == x);
            } else {
                assert(rows[rows.len() - 1] == x);
            }
        }
    }
}

proof fn lemma_ranked_members(rows: Seq<QuizRowView>, correct: QuizRowView)
    ensures
        forall|x: QuizRowView| #[trigger] ranked_by_similarity(rows, correct).contains(x) ==> rows.contains(x),
    decreases rows.len(),
{
    if rows.len() > 0 {
        lemma_ranked_members(rows.drop_last(), correct);
        let sorted = ranked_by_similarity(rows.drop_last(), correct);
        let p = rank_position(sorted, similarity(correct, rows.last()), correct);
        lemma_rank_position_bound(sorted, similarity(correct, rows.last()), correct);
        assert forall|x: QuizRowView| #[trigger] ranked_by_similarity(rows, correct).contains(x) implies rows.contains(x) by {
            let t = sorted.insert(p as int, rows.last());
            let i = choose|i: int| 0 <= i < t.len() && t[i] == x;
            if i < p {
                assert(sorted[i] == x);
                assert(sorted.contains(x));
                let j = choose|j: int| 0 <= j < rows.drop_last().len() && rows.drop_last()[j] == x;
                assert(rows[j] == x);
            } else if i == p {
                assert(rows[rows.len() - 1] == x);
            } else {
                assert(sorted[i - 1] == x);
                assert(sorted.contains(x));
                let j = choose|j: int| 0 <= j < rows.drop_last().len() && rows.drop_last()[j] == x;
                assert(rows[j] == x);
            }
        }
    }
}

/// The forms of the rows of `c`'s lemma whose analysis is `analysis`.
pub open spec fn same_analysis_forms(
    rows: Seq<QuizRowView>,
    constants: Seq<ConstantView>,
    c: QuizRowView,
    analysis: Seq<char>,
) -> Seq<Seq<char>>
    decreases rows.len(),
{
    if rows.len() == 0 {
        Seq::empty()
    } else {
        let r = same_analysis_forms(rows.drop_last(), constants, c, analysis);
        if rows.last().lemma_id == c.lemma_id && analysis_text(rows.last(), constants) == analysis {
            r.push(rows.last().form)
        } else {
            r
        }
    }
}

/// The distinct forms of `c`'s lemma that have `c`'s analysis.
pub open spec fn build_forms(rows: Seq<QuizRowView>, constants: Seq<ConstantView>, c: QuizRowView) -> Seq<Seq<char>> {
    fresh_items(same_analysis_forms(rows, constants, c, analysis_text(c, constants)), Seq::empty())
}

/// The forms of the rows of `c`'s lemma.
pub open spec fn same_lemma_forms(rows: Seq<QuizRowView>, c: QuizRowView) -> Seq<Seq<char>>
    decreases rows.len(),
{
    if rows.len() == 0 {
        Seq::empty()
    } else if rows.last().lemma_id == c.lemma_id {
        same_lemma_forms(rows.drop_last(), c).push(rows.last().form)
    } else {
        same_lemma_forms(rows.drop_last(), c)
    }
}

/// The distinct other forms at hand for wrong options: those of the lemma
/// first, then those of similar rows, the most similar first.
pub open spec fn build_pool(
    rows: Seq<QuizRowView>,
    c: QuizRowView,
    valid: Seq<Seq<char>>,
) -> Seq<Seq<char>> {
    fresh_items(
        same_lemma_forms(rows, c) + forms_of(ranked_by_similarity(similar_candidates(rows, c, part_of_speech(c)), c)),
        valid,
    )
}

/// Whether a form is one to three edits away from `form`.
pub open spec fn close_form(form: Seq<char>) -> spec_fn(Seq<char>) -> bool {
    |x: Seq<char>| 1 <= edit_distance(form, x) <= 3
}

/// Whether a form is no edit or more than three edits away from `form`.
pub open spec fn far_form(form: Seq<char>) -> spec_fn(Seq<char>) -> bool {
    |x: Seq<char>| !(1 <= edit_distance(form, x) <= 3)
}

/// Whether an analysis-to-form question can be made for `c`: its analysis has
/// one form in the lemma, and five other forms are at hand.
pub open spec fn build_question_exists(rows: Seq<QuizRowView>, constants: Seq<ConstantView>, c: QuizRowView) -> bool {
    let valid = build_forms(rows, constants, c);
    valid.len() == 1 && build_pool(rows, c, valid).len() >= 5
}

/// `q` is an analysis-to-form question about `c`: the analysis is shown, the
/// correct option is the form, and five other forms are the wrong options,
/// preferably ones that are one to three edits away.
pub open spec fn is_build_question(
    rows: Seq<QuizRowView>,
    constants: Seq<ConstantView>,
    c: QuizRowView,
    q: QuestionView,
) -> bool {
    let pool = build_pool(rows, c, build_forms(rows, constants, c));
    let id = "form:"@ + decimal(c.inflection_id as int);
    &&& q.lemma_id == c.lemma_id
    &&& q.mode == QuizMode::BuildForm
    &&& q.prompt == analysis_text(c, constants)
    &&& q.clue is None
    &&& q.correct_option_ids == seq![id]
    &&& q.accepted_text_answers.len() == 0
    &&& unanswered(q)
    &&& exists|picks: Seq<Seq<char>>|
        #[trigger] valid_picks(pool.filter(close_form(c.form)), pool.filter(far_form(c.form)), picks)
            && reordered(q.options, ordered_options(id, c.form, "form:"@, picks))
}

/// The forms of `c`'s lemma that have the given analysis, without repeats.
fn forms_with_analysis(rows: &[QuizRow], constants: &ConstantTable, correct: &QuizRow, analysis: &String) -> (r: Vec<String>)
    ensures
        r.deep_view() == fresh_items(
            same_analysis_forms(crate::models::row_views(rows@), constants@, correct@, analysis@),
            Seq::empty(),
        ),
{
    let ghost all = crate::models::row_views(rows@);
    let mut forms: Vec<String> = Vec::new();
    let mut i: usize = 0;
    assert(all.take(0) =~= Seq::<QuizRowView>::empty());
    while i < rows.len()
        invariant
            all == crate::models::row_views(rows@),
            i <= rows@.len(),
            forms.deep_view() == fresh_items(same_analysis_forms(all.take(i as int), constants@, correct@, analysis@), Seq::empty()),
        decreases rows@.len() - i,
    {
        let row = &rows[i];
        proof {
            assert(all.take(i + 1).drop_last() =~= all.take(i as int));
            assert(all.take(i + 1).last() == row@);
        }
        if row.lemma_id == correct.lemma_id {
            let a = render_analysis(row, constants);
            if a == *analysis {
                proof {
                    let prev = same_analysis_forms(all.take(i as int), constants@, correct@, analysis@);
                    assert(prev.push(row@.form).drop_last() =~= prev);
                }
                let f = row.form.clone();
                if !contains_string(&forms, &f) {
                    push_string(&mut forms, f);
                }
            }
        }
        i = i + 1;
    }
    assert(all.take(i as int) =~= all);
    forms
}

/// Adds `x` to `fresh` (and `seen`) unless `seen` holds it, sorting it into
/// `close` or `far` by its edit distance from `form`.
fn add_candidate_form(
    seen: &mut Vec<String>,
    close: &mut Vec<String>,
    far: &mut Vec<String>,
    form: &String,
    x: &String,
    Ghost(valid): Ghost<Seq<Seq<char>>>,
    Ghost(items): Ghost<Seq<Seq<char>>>,
)
    requires
        form@.len() < usize::MAX,
        x@.len() < usize::MAX,
        old(seen).deep_view() == valid + fresh_items(items, valid),
        old(close).deep_view() == fresh_items(items, valid).filter(close_form(form@)),
        old(far).deep_view() == fresh_items(items, valid).filter(far_form(form@)),
        old(close).deep_view().len() + old(far).deep_view().len() == fresh_items(items, valid).len(),
    ensures
        final(seen).deep_view() == valid + fresh_items(items.push(x@), valid),
        final(close).deep_view() == fresh_items(items.push(x@), valid).filter(close_form(form@)),
        final(far).deep_view() == fresh_items(items.push(x@), valid).filter(far_form(form@)),
        final(close).deep_view().len() + final(far).deep_view().len() == fresh_items(items.push(x@), valid).len(),
{
    let ghost fresh = fresh_items(items, valid);
    proof {
        reveal(Seq::filter);
        assert(items.push(x@).drop_last() =~= items);
    }
    if !contains_string(seen, x) {
        proof {
            assert(!valid.contains(x@)) by {
                if valid.contains(x@) {
                    let j = choose|j: int| 0 <= j < valid.len() && valid[j] == x@;
                    assert((valid + fresh)[j] == x@);
                }
            }
            assert(!fresh.contains(x@)) by {
                if fresh.contains(x@) {
                    let j = choose|j: int| 0 <= j < fresh.len() && fresh[j] == x@;
                    assert((valid + fresh)[valid.len() + j] == x@);
                }
            }
            assert(fresh_items(items.push(x@), valid) == fresh.push(x@));
            assert(fresh.push(x@).drop_last() =~= fresh);
        }
        let d = levenshtein(form.as_str(), x.as_str());
        push_string(seen, x.clone());
        assert(seen.deep_view() =~= valid + fresh.push(x@));
        if d >= 1 && d <= 3 {
            push_string(close, x.clone());
        } else {
            push_string(far, x.clone());
        }
    } else {
        proof {
            let j = choose|j: int| 0 <= j < (valid + fresh).len() && (valid + fresh)[j] == x@;
            if j < valid.len() {
                assert(valid[j] == x@);
            } else {
                assert(fresh[j - valid.len()] == x@);
            }
            assert(fresh_items(items.push(x@), valid) == fresh);
        }
    }
}

/// An analysis-to-form question about `correct`, or `None` when its analysis
/// has more than one form in the lemma or too few other forms are at hand.
pub fn generate_build_question(rows: &[QuizRow], constants: &ConstantTable, correct: &QuizRow) -> (r: Option<Question>)
    requires
        correct.form@.len() < usize::MAX,
        forall|i: int| 0 <= i < rows@.len() ==> (#[trigger] rows@[i]).form@.len() < usize::MAX,
    ensures
        r is Some <==> build_question_exists(crate::models::row_views(rows@), constants@, correct@),
        r matches Some(q) ==> is_build_question(crate::models::row_views(rows@), constants@, correct@, q@),
{
    let ghost all = crate::models::row_views(rows@);
    let analysis = render_analysis(correct, constants);
    let valid_forms = forms_with_analysis(rows, constants, correct, &analysis);
    if valid_forms.len() != 1 {
        return None;
    }
    let ghost valid = valid_forms.deep_view();
    let correct_pos = correct.constant_ids.get("part_of_speech");
    let mut seen: Vec<String> = Vec::new();
    push_string(&mut seen, valid_forms[0].clone());
    let mut close: Vec<String> = Vec::new();
    let mut far: Vec<String> = Vec::new();
    let ghost lemma_forms = same_lemma_forms(all, correct@);
    proof {
        reveal(Seq::filter);
        assert(seen.deep_view() =~= valid + fresh_items(Seq::<Seq<char>>::empty(), valid));
        assert(all.take(0) =~= Seq::<QuizRowView>::empty());
    }
    let mut i: usize = 0;
    while i < rows.len()
        invariant
            all == crate::models::row_views(rows@),
            i <= rows@.len(),
            correct.form@.len() < usize::MAX,
            forall|j: int| 0 <= j < rows@.len() ==> (#[trigger] rows@[j]).form@.len() < usize::MAX,
            seen.deep_view() == valid + fresh_items(same_lemma_forms(all.take(i as int), correct@), valid),
            close.deep_view() == fresh_items(same_lemma_forms(all.take(i as int), correct@), valid).filter(close_form(correct.form@)),
            far.deep_view() == fresh_items(same_lemma_forms(all.take(i as int), correct@), valid).filter(far_form(correct.form@)),
            close.deep_view().len() + far.deep_view().len() == fresh_items(same_lemma_forms(all.take(i as int), correct@), valid).len(),
        decreases rows@.len() - i,
    {
        let row = &rows[i];
        proof {
            assert(all.take(i + 1).drop_last() =~= all.take(i as int));
            assert(all.take(i + 1).last() == row@);
        }
        if row.lemma_id == correct.lemma_id {
            add_candidate_form(&mut seen, &mut close, &mut far, &correct.form, &row.form, Ghost(valid), Ghost(same_lemma_forms(all.take(i as int), correct@)));
        }
        i = i + 1;
    }
    assert(all.take(i as int) =~= all);
    let ranked = ranked_similar_rows(rows, correct, correct_pos);
    let ghost ranked_views = crate::models::row_views(ranked@);
    proof {
        lemma_ranked_members(similar_candidates(all, correct@, correct_pos), correct@);
        lemma_similar_members(all, correct@, correct_pos);
        assert forall|k: int| 0 <= k < ranked@.len() implies (#[trigger] ranked@[k]).form@.len() < usize::MAX by {
            assert(ranked_views[k] == ranked@[k]@);
            assert(ranked_views.contains(ranked@[k]@));
            assert(similar_candidates(all, correct@, correct_pos).contains(ranked@[k]@));
            let j = choose|j: int| 0 <= j < all.len() && all[j] == ranked@[k]@;
            assert(rows@[j]@ == all[j]);
        }
        assert(lemma_forms + forms_of(ranked_views.take(0)) =~= lemma_forms);
    }
    let mut k: usize = 0;
    while k < ranked.len()
        invariant
            k <= ranked@.len(),
            ranked_views == crate::models::row_views(ranked@),
            correct.form@.len() < usize::MAX,
            forall|t: int| 0 <= t < ranked@.len() ==> (#[trigger] ranked@[t]).form@.len() < usize::MAX,
            seen.deep_view() == valid + fresh_items(lemma_forms + forms_of(ranked_views.take(k as int)), valid),
            close.deep_view() == fresh_items(lemma_forms + forms_of(ranked_views.take(k as int)), valid).filter(close_form(correct.form@)),
            far.deep_view() == fresh_items(lemma_forms + forms_of(ranked_views.take(k as int)), valid).filter(far_form(correct.form@)),
            close.deep_view().len() + far.deep_view().len() == fresh_items(lemma_forms + forms_of(ranked_views.take(k as int)), valid).len(),
        decreases ranked@.len() - k,
    {
        proof {
            assert(lemma_forms + forms_of(ranked_views.take(k + 1)) =~= (lemma_forms + forms_of(ranked_views.take(k as int))).push(ranked@[k as int].form@));
        }
        add_candidate_form(&mut seen, &mut close, &mut far, &correct.form, &ranked[k].form, Ghost(valid), Ghost(lemma_forms + forms_of(ranked_views.take(k as int))));
        k = k + 1;
    }
    let ghost items = lemma_forms + forms_of(ranked_views);
    let ghost pool = fresh_items(items, valid);
    proof {
        assert(ranked_views.take(k as int) =~= ranked_views);
        assert(pool == build_pool(all, correct@, build_forms(all, constants@, correct@)));
    }
    if far.len() < 5 && close.len() < 5 - far.len() {
        return None;
    }
    proof {
        lemma_fresh_items(items, valid);
        lemma_filter_parts(pool, close_form(correct.form@));
        lemma_filter_parts(pool, far_form(correct.form@));
    }
    let picks = pick_five(&close, &far);
    let id = prefixed_decimal("form:", correct.inflection_id);
    let options = build_options(&id, &correct.form, "form:", &picks);
    let mut correct_option_ids: Vec<String> = Vec::new();
    push_string(&mut correct_option_ids, id);
    let q = Question {
        lemma_id: correct.lemma_id,
        mode: QuizMode::BuildForm,
        prompt: analysis,
        clue: None,
        options,
        correct_option_ids,
        selected_option_id: None,
        accepted_text_answers: Vec::new(),
        text_entry: String::new(),
        submitted_text: None,
    };
    proof {
        assert(q@.correct_option_ids =~= seq!["form:"@ + decimal(correct@.inflection_id as int)]);
        assert(valid_picks(pool.filter(close_form(correct.form@)), pool.filter(far_form(correct.form@)), picks.deep_view()));
        assert(q@.prompt == analysis_text(correct@, constants@));
        assert(reordered(q@.options, ordered_options("form:"@ + decimal(correct@.inflection_id as int), correct@.form, "form:"@, picks.deep_view())));
        assert(q@.lemma_id == correct@.lemma_id);
        assert(unanswered(q@));
    }
    Some(q)
}


/// Whether `a` comes no later than `b` in the order of `String`'s `Ord`
/// (character by character, a prefix first).
pub open spec fn lex_le(a: Seq<char>, b: Seq<char>) -> bool
    decreases a.len(),
{
    if a.len() == 0 {
        true
    } else if b.len() == 0 {
        false
    } else if a[0] != b[0] {
        a[0] < b[0]
    } else {
        lex_le(a.drop_first(), b.drop_first())
    }
}

pub fn lex_le_chars(a: &[char], b: &[char]) -> (r: bool)
    ensures
        r == lex_le(a@, b@),
{
    let mut i: usize = 0;
    assert(a@.skip(0) =~= a@ && b@.skip(0) =~= b@);
    while i < a.len() && i < b.len() && a[i] == b[i]
        invariant
            i <= a@.len(),
            i <= b@.len(),
            lex_le(a@, b@) == lex_le(a@.skip(i as int), b@.skip(i as int)),
        decreases a@.len() - i,
    {
        assert(a@.skip(i as int).drop_first() =~= a@.skip(i + 1));
        assert(b@.skip(i as int).drop_first() =~= b@.skip(i + 1));
        i = i + 1;
    }
    if i == a.len() {
        true
    } else if i == b.len() {
        false
    } else {
        a[i] < b[i]
    }
}

/// Where `x` goes in a list sorted by lowercase text: after every entry whose
/// lowercase text does not come after that of `x`.
pub open spec fn lowercase_position(sorted: Seq<Seq<char>>, x: Seq<char>) -> nat
    decreases sorted.len(),
{
    if sorted.len() == 0 {
        0
    } else if !lex_le(unicode_lowercase(sorted[0]), unicode_lowercase(x)) {
        0
    } else {
        1 + lowercase_position(sorted.drop_first(), x)
    }
}

/// The entries sorted by their lowercase text; entries whose lowercase texts
/// are equal keep their order.
pub open spec fn sorted_by_lowercase(s: Seq<Seq<char>>) -> Seq<Seq<char>>
    decreases s.len(),
{
    if s.len() == 0 {
        Seq::empty()
    } else {
        let sorted = sorted_by_lowercase(s.drop_last());
        sorted.insert(lowercase_position(sorted, s.last()) as int, s.last())
    }
}

proof fn lemma_lowercase_position_bound(sorted: Seq<Seq<char>>, x: Seq<char>)
    ensures
        lowercase_position(sorted, x) <= sorted.len(),
    decreases sorted.len(),
{
    if sorted.len() > 0 {
        lemma_lowercase_position_bound(sorted.drop_first(), x);
    }
}

/// The strings sorted by their lowercase text.
pub fn sort_by_lowercase(items: &Vec<String>) -> (r: Vec<String>)
    ensures
        r.deep_view() == sorted_by_lowercase(items.deep_view()),
{
    let mut sorted: Vec<String> = Vec::new();
    let mut keys: Vec<Vec<char>> = Vec::new();
    let mut i: usize = 0;
    assert(items.deep_view().take(0) =~= Seq::<Seq<char>>::empty());
    assert(sorted.deep_view() =~= Seq::<Seq<char>>::empty());
    while i < items.len()
        invariant
            i <= items@.len(),
            keys@.len() == sorted@.len(),
            forall|j: int| 0 <= j < sorted@.len() ==> (#[trigger] keys@[j])@ == unicode_lowercase(sorted@[j]@),
            sorted.deep_view() == sorted_by_lowercase(items.deep_view().take(i as int)),
        decreases items@.len() - i,
    {
        let x = &items[i];
        let lx = to_lowercase(x.as_str());
        let kx = chars_of(lx.as_str());
        let ghost before = sorted.deep_view();
        proof {
            assert(items.deep_view().take(i + 1).drop_last() =~= items.deep_view().take(i as int));
            assert(items.deep_view().take(i + 1).last() == x@);
        }
        let mut pos: usize = 0;
        assert(before.skip(0) =~= before);
        while pos < sorted.len() && lex_le_chars(keys[pos].as_slice(), kx.as_slice())
            invariant
                keys@.len() == sorted@.len(),
                pos <= sorted@.len(),
                before == sorted.deep_view(),
                kx@ == unicode_lowercase(x@),
                forall|j: int| 0 <= j < sorted@.len() ==> (#[trigger] keys@[j])@ == unicode_lowercase(sorted@[j]@),
                lowercase_position(before, x@) == pos + lowercase_position(before.skip(pos as int), x@),
            decreases sorted@.len() - pos,
        {
            assert(before.skip(pos as int).drop_first() =~= before.skip(pos + 1));
            assert(before.skip(pos as int)[0] == sorted@[pos as int]@);
            pos = pos + 1;
        }
        proof {
            if pos < sorted@.len() {
                assert(before.skip(pos as int)[0] == sorted@[pos as int]@);
            }
            assert(lowercase_position(before, x@) == pos);
        }
        let ghost old_sorted = sorted@;
        let ghost old_keys = keys@;
        sorted.insert(pos, x.clone());
        keys.insert(pos, kx);
        proof {
            assert(sorted.deep_view() =~= before.insert(pos as int, x@));
            assert forall|j: int| 0 <= j < sorted@.len() implies (#[trigger] keys@[j])@ == unicode_lowercase(sorted@[j]@) by {
                if j < pos {
                    assert(sorted@[j] == old_sorted[j] && keys@[j] == old_keys[j]);
                } else if j > pos {
                    assert(sorted@[j] == old_sorted[j - 1] && keys@[j] == old_keys[j - 1]);
                }
            }
        }
        i = i + 1;
    }
    assert(items.deep_view().take(i as int) =~= items.deep_view());
    sorted
}

/// The rows of `c`'s lemma with another form than `c`, restricted (when
/// `other_analysis`) to those with another analysis than `analysis`.
pub open spec fn clue_rows(
    rows: Seq<QuizRowView>,
    constants: Seq<ConstantView>,
    c: QuizRowView,
    analysis: Seq<char>,
    other_analysis: bool,
) -> Seq<QuizRowView>
    decreases rows.len(),
{
    if rows.len() == 0 {
        Seq::empty()
    } else {
        let r = clue_rows(rows.drop_last(), constants, c, analysis, other_analysis);
        let x = rows.last();
        if x.lemma_id == c.lemma_id && x.form != c.form && (!other_analysis || analysis_text(x, constants) != analysis) {
            r.push(x)
        } else {
            r
        }
    }
}

/// The rows from which the clue of a typed-form question is drawn: those with
/// another form and another analysis, or, when there are none, those with
/// another form.
pub open spec fn clue_candidates(rows: Seq<QuizRowView>, constants: Seq<ConstantView>, c: QuizRowView) -> Seq<QuizRowView> {
    let analysis = analysis_text(c, constants);
    let primary = clue_rows(rows, constants, c, analysis, true);
    if primary.len() > 0 {
        primary
    } else {
        clue_rows(rows, constants, c, analysis, false)
    }
}

/// Whether a typed-form question can be made for `c`: some form of the lemma
/// has its analysis, and some other form can serve as a clue.
pub open spec fn infer_question_exists(rows: Seq<QuizRowView>, constants: Seq<ConstantView>, c: QuizRowView) -> bool {
    build_forms(rows, constants, c).len() > 0 && clue_candidates(rows, constants, c).len() > 0
}

/// `q` is a typed-form question about `c`: the analysis is shown with another
/// form of the lemma as a clue, and every form of the lemma with that
/// analysis is accepted.
pub open spec fn is_infer_question(
    rows: Seq<QuizRowView>,
    constants: Seq<ConstantView>,
    c: QuizRowView,
    q: QuestionView,
) -> bool {
    let cands = clue_candidates(rows, constants, c);
    &&& q.lemma_id == c.lemma_id
    &&& q.mode == QuizMode::InferForm
    &&& q.prompt == analysis_text(c, constants)
    &&& q.options.len() == 0
    &&& q.correct_option_ids.len() == 0
    &&& q.accepted_text_answers == sorted_by_lowercase(build_forms(rows, constants, c))
    &&& unanswered(q)
    &&& exists|i: int| 0 <= i < cands.len() && q.clue == Some("Clue form: "@ + (#[trigger] cands[i]).form)
}

/// Indices of the rows that `clue_rows` keeps.
fn clue_row_indices(rows: &[QuizRow], constants: &ConstantTable, correct: &QuizRow, analysis: &String, other_analysis: bool) -> (r: Vec<usize>)
    ensures
        forall|k: int| 0 <= k < r@.len() ==> #[trigger] r@[k] < rows@.len(),
        r@.map_values(|k: usize| rows@[k as int]@) == clue_rows(crate::models::row_views(rows@), constants@, correct@, analysis@, other_analysis),
{
    let ghost all = crate::models::row_views(rows@);
    let mut out: Vec<usize> = Vec::new();
    let mut i: usize = 0;
    assert(all.take(0) =~= Seq::<QuizRowView>::empty());
    assert(out@.map_values(|k: usize| rows@[k as int]@) =~= Seq::<QuizRowView>::empty());
    while i < rows.len()
        invariant
            all == crate::models::row_views(rows@),
            i <= rows@.len(),
            forall|k: int| 0 <= k < out@.len() ==> #[trigger] out@[k] < rows@.len(),
            out@.map_values(|k: usize| rows@[k as int]@) == clue_rows(all.take(i as int), constants@, correct@, analysis@, other_analysis),
        decreases rows@.len() - i,
    {
        let row = &rows[i];
        proof {
            assert(all.take(i + 1).drop_last() =~= all.take(i as int));
            assert(all.take(i + 1).last() == row@);
        }
        let keep = if row.lemma_id == correct.lemma_id && row.form != correct.form {
            if other_analysis {
                let a = render_analysis(row, constants);
                a != *analysis
            } else {
                true
            }
        } else {
            false
        };
        if keep {
            let ghost before = out@;
            out.push(i);
            assert(out@.map_values(|k: usize| rows@[k as int]@) =~= before.map_values(|k: usize| rows@[k as int]@).push(row@));
        }
        i = i + 1;
    }
    assert(all.take(i as int) =~= all);
    out
}

/// A typed-form question about `correct`, or `None` when no form of the lemma
/// has its analysis or no other form can serve as a clue.
pub fn generate_infer_question(rows: &[QuizRow], constants: &ConstantTable, correct: &QuizRow) -> (r: Option<Question>)
    ensures
        r is Some <==> infer_question_exists(crate::models::row_views(rows@), constants@, correct@),
        r matches Some(q) ==> is_infer_question(crate::models::row_views(rows@), constants@, correct@, q@),
{
    let ghost all = crate::models::row_views(rows@);
    let analysis = render_analysis(correct, constants);
    let valid_forms = forms_with_analysis(rows, constants, correct, &analysis);
    if valid_forms.len() == 0 {
        return None;
    }
    let mut cands = clue_row_indices(rows, constants, correct, &analysis, true);
    if cands.len() == 0 {
        cands = clue_row_indices(rows, constants, correct, &analysis, false);
    }
    if cands.len() == 0 {
        return None;
    }
    let order = random_order(cands.len());
    let pick = cands[order[0]];
    let mut clue = string_from_str("Clue form: ");
    clue.append(rows[pick].form.as_str());
    let accepted = sort_by_lowercase(&valid_forms);
    let q = Question {
        lemma_id: correct.lemma_id,
        mode: QuizMode::InferForm,
        prompt: analysis,
        clue: Some(clue),
        options: Vec::new(),
        correct_option_ids: Vec::new(),
        selected_option_id: None,
        accepted_text_answers: accepted,
        text_entry: String::new(),
        submitted_text: None,
    };
    proof {
        let cs = clue_candidates(all, constants@, correct@);
        let idx = order@[0] as int;
        assert(order@[0] < cands@.len());
        assert(cands@.map_values(|k: usize| rows@[k as int]@)[idx] == cs[idx]);
        assert(q@.clue == Some("Clue form: "@ + cs[idx].form));
        assert(q@.options =~= Seq::<(Seq<char>, Seq<char>)>::empty());
        assert(q@.correct_option_ids =~= Seq::<Seq<char>>::empty());
    }
    Some(q)
}


/// Whether a question of the given kind can be made about `c`.
pub open spec fn question_exists(
    mode: QuizMode,
    rows: Seq<QuizRowView>,
    constants: Seq<ConstantView>,
    c: QuizRowView,
) -> bool {
    match mode {
        QuizMode::ParseForm => parse_question_exists(rows, constants, c),
        QuizMode::BuildForm => build_question_exists(rows, constants, c),
        QuizMode::InferForm => infer_question_exists(rows, constants, c),
    }
}

/// Whether `q` is a question of the given kind about `c`.
pub open spec fn is_question(
    mode: QuizMode,
    rows: Seq<QuizRowView>,
    constants: Seq<ConstantView>,
    c: QuizRowView,
    q: QuestionView,
) -> bool {
    match mode {
        QuizMode::ParseForm => is_parse_question(rows, constants, c, q),
        QuizMode::BuildForm => is_build_question(rows, constants, c, q),
        QuizMode::InferForm => is_infer_question(rows, constants, c, q),
    }
}

/// The view of an optional question.
pub open spec fn opt_question(q: Option<Question>) -> Option<QuestionView> {
    match q {
        Some(x) => Some(x@),
        None => None,
    }
}

/// Whether some row allows a question of the given kind: there are at least
/// six rows and a question can be made about one of them.
pub open spec fn question_possible(mode: QuizMode, rows: Seq<QuizRowView>, constants: Seq<ConstantView>) -> bool {
    rows.len() >= 6 && exists|i: int| 0 <= i < rows.len() && #[trigger] question_exists(mode, rows, constants, rows[i])
}

/// Whether `r` is what question generation may give for the rows: a question
/// of the kind about one of the rows when one is possible, none otherwise.
pub open spec fn question_for(
    mode: QuizMode,
    rows: Seq<QuizRowView>,
    constants: Seq<ConstantView>,
    r: Option<QuestionView>,
) -> bool {
    &&& (r is None <==> !question_possible(mode, rows, constants))
    &&& (r matches Some(q) ==> exists|i: int| 0 <= i < rows.len() && is_question(mode, rows, constants, #[trigger] rows[i], q))
}

/// A question of the given kind about one of the rows, the row chosen at
/// random among those about which such a question can be made; `None` when
/// there are fewer than six rows or no row allows such a question.
pub fn generate_question(rows: &[QuizRow], constants: &ConstantTable, mode: QuizMode) -> (r: Option<Question>)
    requires
        forall|i: int| 0 <= i < rows@.len() ==> (#[trigger] rows@[i]).form@.len() < usize::MAX,
    ensures
        question_for(mode, crate::models::row_views(rows@), constants@, opt_question(r)),
{
    let ghost all = crate::models::row_views(rows@);
    if rows.len() < 6 {
        return None;
    }
    let order = random_order(rows.len());
    let mut k: usize = 0;
    while k < order.len()
        invariant
            all == crate::models::row_views(rows@),
            is_order(order@, rows@.len()),
            rows@.len() >= 6,
            k <= order@.len(),
            forall|i: int| 0 <= i < rows@.len() ==> (#[trigger] rows@[i]).form@.len() < usize::MAX,
            forall|t: int| 0 <= t < k ==> !question_exists(mode, all, constants@, rows@[#[trigger] order@[t] as int]@),
        decreases order@.len() - k,
    {
        let correct = &rows[order[k]];
        let question = match mode {
            QuizMode::ParseForm => generate_parse_question(rows, constants, correct),
            QuizMode::BuildForm => generate_build_question(rows, constants, correct),
            QuizMode::InferForm => generate_infer_question(rows, constants, correct),
        };
        if question.is_some() {
            proof {
                let i = order@[k as int] as int;
                assert(order@[k as int] < rows@.len());
                assert(all[i] == rows@[i]@);
                assert(question_exists(mode, all, constants@, all[i]));
                assert(is_question(mode, all, constants@, all[i], question.unwrap()@));
            }
            return question;
        }
        k = k + 1;
    }
    proof {
        assert forall|i: int| 0 <= i < rows@.len() implies !question_exists(mode, all, constants@, #[trigger] rows@[i]@) by {
            assert(order@.contains(i as usize));
            let t = choose|t: int| 0 <= t < order@.len() && order@[t] == i as usize;
            assert(rows@[order@[t] as int] == rows@[i]);
        }
    }
    None
}


proof fn lemma_normalized_char_fixed(ch: char)
    ensures
        normalized_char(ch) matches Some(c) ==> normalized_char(c) == Some(c) && !is_white_space(c),
{
}

/// Normalizing an already normalized answer changes nothing.
pub proof fn lemma_normalize_idempotent(s: Seq<char>)
    ensures
        normalized_seq(normalized_seq(s)) == normalized_seq(s),
    decreases s.len(),
{
    if s.len() > 0 {
        lemma_normalize_idempotent(s.drop_last());
        lemma_normalized_char_fixed(s.last());
        let r = normalized_seq(s.drop_last());
        if let Some(c) = normalized_char(s.last()) {
            if !is_white_space(c) {
                assert(r.push(c).drop_last() =~= r);
            }
        }
    }
}


// ---------------------------------------------------------------------------
// Laws of grading, analyses and clues
// ---------------------------------------------------------------------------

/// Grading folds every accented or capital Greek letter to the plain
/// lowercase letter it stands for; only sigma in its three forms becomes `σ`.
pub proof fn law_normalize_folds_accents(ch: char)
    ensures
        (deaccented(ch) matches Some(b) && ch != 'ς' && ch != 'Σ' && ch != 'σ') ==> normalized_char(ch) == deaccented(ch),
        ch == 'ς' || ch == 'Σ' || ch == 'σ' ==> normalized_char(ch) == Some('σ'),
{
}

/// The breathings, accents and circumflex on a vowel, and its capital, are
/// dropped when an answer is graded: each such letter counts as the plain
/// lowercase vowel.
pub proof fn law_accented_vowels_fold()
    ensures
        normalized_char('ᾶ') == Some('α') && normalized_char('ά') == Some('α') && normalized_char('ὰ') == Some('α')
            && normalized_char('ἀ') == Some('α') && normalized_char('ἁ') == Some('α') && normalized_char('Α') == Some('α'),
        normalized_char('έ') == Some('ε') && normalized_char('ὲ') == Some('ε') && normalized_char('ἐ') == Some('ε')
            && normalized_char('ἑ') == Some('ε') && normalized_char('Ε') == Some('ε'),
        normalized_char('ῆ') == Some('η') && normalized_char('ή') == Some('η') && normalized_char('ὴ') == Some('η')
            && normalized_char('ἠ') == Some('η') && normalized_char('ἡ') == Some('η') && normalized_char('Η') == Some('η'),
        normalized_char('ῖ') == Some('ι') && normalized_char('ί') == Some('ι') && normalized_char('ὶ') == Some('ι')
            && normalized_char('ἰ') == Some('ι') && normalized_char('ἱ') == Some('ι') && normalized_char('Ι') == Some('ι'),
        normalized_char('ό') == Some('ο') && normalized_char('ὸ') == Some('ο') && normalized_char('ὀ') == Some('ο')
            && normalized_char('ὁ') == Some('ο') && normalized_char('Ο') == Some('ο'),
        normalized_char('ῦ') == Some('υ') && normalized_char('ύ') == Some('υ') && normalized_char('ὺ') == Some('υ')
            && normalized_char('ὐ') == Some('υ') && normalized_char('ὑ') == Some('υ') && normalized_char('Υ') == Some('υ'),
        normalized_char('ῶ') == Some('ω') && normalized_char('ώ') == Some('ω') && normalized_char('ὼ') == Some('ω')
            && normalized_char('ὠ') == Some('ω') && normalized_char('ὡ') == Some('ω') && normalized_char('Ω') == Some('ω'),
{
}

proof fn lemma_description_categories()
    ensures
        description_order().len() == 10,
        forall|j: int| 0 <= j < 10 && j != 7 ==> description_order()[j] != "person"@,
        forall|j: int| 0 <= j < 10 && j != 6 ==> description_order()[j] != "number"@,
        description_order()[7] == "person"@,
        description_order()[6] == "number"@,
{
    reveal_strlit("declension");
    reveal_strlit("case");
    reveal_strlit("gender");
    reveal_strlit("tense");
    reveal_strlit("voice");
    reveal_strlit("mood");
    reveal_strlit("number");
    reveal_strlit("person");
    reveal_strlit("dialect");
    reveal_strlit("stemtype");
    let d = description_order();
    assert(d[2][0] != "person"@[0] && d[2][0] != "number"@[0]);
    assert(d[6][0] != "person"@[0]);
    assert(d[7][0] != "number"@[0]);
    assert forall|j: int| 0 <= j < 10 && j != 7 implies description_order()[j] != "person"@ by {
        if j != 2 && j != 6 {
            assert(d[j].len() != 6);
        }
    }
    assert forall|j: int| 0 <= j < 10 && j != 6 implies description_order()[j] != "number"@ by {
        if j != 2 && j != 7 {
            assert(d[j].len() != 6);
        }
    }
}

proof fn lemma_pairs_person_number(
    row: QuizRowView,
    constants: Seq<ConstantView>,
    k: nat,
    person: ConstantView,
    number: ConstantView,
)
    requires
        k <= 10,
        assoc_get(row.constant_ids, "person"@) matches Some(pid) && constant_by_id(constants, pid) == Some(person),
        assoc_get(row.constant_ids, "number"@) matches Some(nid) && constant_by_id(constants, nid) == Some(number),
    ensures
        pairs_through(row, constants, k).1 == (if k >= 8 { Some(person.display_label) } else { None }),
        pairs_through(row, constants, k).2 == (if k >= 7 { Some(number.display_label) } else { None }),
    decreases k,
{
    lemma_description_categories();
    if k > 0 {
        lemma_pairs_person_number(row, constants, (k - 1) as nat, person, number);
    }
}

/// A row tagged with a person and a number is described, last, by the
/// person's label followed by `s`, `p` or `d` for a singular, plural or dual
/// number: the first person plural reads `1p`.
pub proof fn law_person_number_tag(row: QuizRowView, constants: Seq<ConstantView>, person: ConstantView, number: ConstantView)
    requires
        assoc_get(row.constant_ids, "person"@) matches Some(pid) && constant_by_id(constants, pid) == Some(person),
        assoc_get(row.constant_ids, "number"@) matches Some(nid) && constant_by_id(constants, nid) == Some(number),
    ensures
        tag_pairs(row, constants).len() > 0,
        tag_pairs(row, constants).last().0 == "person_number"@,
        number.display_label == "Singular"@ ==> tag_pairs(row, constants).last().1 == person.display_label + "s"@,
        number.display_label == "Plural"@ ==> tag_pairs(row, constants).last().1 == person.display_label + "p"@,
        number.display_label == "Dual"@ ==> tag_pairs(row, constants).last().1 == person.display_label + "d"@,
{
    lemma_pairs_person_number(row, constants, 10, person, number);
    reveal_strlit("Singular");
    reveal_strlit("Plural");
    reveal_strlit("Dual");
    assert("Plural"@.len() != "Singular"@.len());
    assert("Dual"@.len() != "Singular"@.len());
    assert("Dual"@.len() != "Plural"@.len());
}

proof fn lemma_clue_rows(
    rows: Seq<QuizRowView>,
    constants: Seq<ConstantView>,
    c: QuizRowView,
    analysis: Seq<char>,
    other_analysis: bool,
)
    ensures
        forall|i: int| 0 <= i < clue_rows(rows, constants, c, analysis, other_analysis).len() ==> {
            let x = #[trigger] clue_rows(rows, constants, c, analysis, other_analysis)[i];
            &&& rows.contains(x)
            &&& x.lemma_id == c.lemma_id
            &&& x.form != c.form
            &&& (other_analysis ==> analysis_text(x, constants) != analysis)
        },
        forall|j: int|
            0 <= j < rows.len() && (#[trigger] rows[j]).lemma_id == c.lemma_id && rows[j].form != c.form && (!other_analysis
                || analysis_text(rows[j], constants) != analysis) ==> clue_rows(rows, constants, c, analysis, other_analysis).len() > 0,
    decreases rows.len(),
{
    if rows.len() > 0 {
        let t = rows.drop_last();
        lemma_clue_rows(t, constants, c, analysis, other_analysis);
        let r = clue_rows(t, constants, c, analysis, other_analysis);
        let out = clue_rows(rows, constants, c, analysis, other_analysis);
        assert forall|i: int| 0 <= i < out.len() implies {
            let x = #[trigger] out[i];
            &&& rows.contains(x)
            &&& x.lemma_id == c.lemma_id
            &&& x.form != c.form
            &&& (other_analysis ==> analysis_text(x, constants) != analysis)
        } by {
            if i < r.len() {
                assert(out[i] == r[i]);
                let x = r[i];
                let k = choose|k: int| 0 <= k < t.len() && t[k] == x;
                assert(rows[k] == t[k]);
            } else {
                assert(rows[rows.len() - 1] == rows.last());
            }
        }
        assert forall|j: int|
            0 <= j < rows.len() && (#[trigger] rows[j]).lemma_id == c.lemma_id && rows[j].form != c.form && (!other_analysis
                || analysis_text(rows[j], constants) != analysis) implies out.len() > 0 by {
            if j < t.len() {
                assert(t[j] == rows[j]);
            }
        }
    }
}

/// The clue of a typed-form question is another form of the same lemma,
/// taken from the rows: with another analysis than the asked form whenever
/// the lemma has such a form; and a clue can be given whenever the lemma has
/// another form among the rows.
pub proof fn law_clue_from_same_lemma(rows: Seq<QuizRowView>, constants: Seq<ConstantView>, c: QuizRowView)
    ensures
        forall|i: int| 0 <= i < clue_candidates(rows, constants, c).len() ==> {
            let x = #[trigger] clue_candidates(rows, constants, c)[i];
            &&& rows.contains(x)
            &&& x.lemma_id == c.lemma_id
            &&& x.form != c.form
        },
        (exists|j: int|
            0 <= j < rows.len() && (#[trigger] rows[j]).lemma_id == c.lemma_id && rows[j].form != c.form
                && analysis_text(rows[j], constants) != analysis_text(c, constants)) ==> forall|i: int|
            0 <= i < clue_candidates(rows, constants, c).len() ==> analysis_text(
                #[trigger] clue_candidates(rows, constants, c)[i],
                constants,
            ) != analysis_text(c, constants),
        (exists|j: int| 0 <= j < rows.len() && (#[trigger] rows[j]).lemma_id == c.lemma_id && rows[j].form != c.form)
            ==> clue_candidates(rows, constants, c).len() > 0,
{
    let analysis = analysis_text(c, constants);
    lemma_clue_rows(rows, constants, c, analysis, true);
    lemma_clue_rows(rows, constants, c, analysis, false);
}

/// A typed-form question shows as its clue another form of the asked row's
/// lemma, one of the rows.
pub proof fn law_infer_clue(rows: Seq<QuizRowView>, constants: Seq<ConstantView>, c: QuizRowView, q: QuestionView)
    requires
        is_infer_question(rows, constants, c, q),
    ensures
        exists|x: QuizRowView|
            rows.contains(x) && x.lemma_id == c.lemma_id && x.form != c.form && q.clue == Some("Clue form: "@ + x.form),
{
    law_clue_from_same_lemma(rows, constants, c);
    let cands = clue_candidates(rows, constants, c);
    let i = choose|i: int| 0 <= i < cands.len() && q.clue == Some("Clue form: "@ + (#[trigger] cands[i]).form);
    let x = cands[i];
    assert(rows.contains(x) && x.lemma_id == c.lemma_id && x.form != c.form);
}


/// Each Greek letter, capital or small, is graded as its own small letter,
/// and the two forms of a letter are graded alike.
pub proof fn law_letters_fold_to_small()
    ensures
        normalized_char('α') == Some('α') && normalized_char('β') == Some('β') && normalized_char('Β') == Some('β'),
        normalized_char('γ') == Some('γ') && normalized_char('Γ') == Some('γ') && normalized_char('δ') == Some('δ')
            && normalized_char('Δ') == Some('δ'),
        normalized_char('ε') == Some('ε') && normalized_char('ζ') == Some('ζ') && normalized_char('Ζ') == Some('ζ'),
        normalized_char('η') == Some('η') && normalized_char('θ') == Some('θ') && normalized_char('Θ') == Some('θ'),
        normalized_char('ι') == Some('ι') && normalized_char('κ') == Some('κ') && normalized_char('Κ') == Some('κ'),
        normalized_char('λ') == Some('λ') && normalized_char('Λ') == Some('λ') && normalized_char('μ') == Some('μ')
            && normalized_char('Μ') == Some('μ'),
        normalized_char('ν') == Some('ν') && normalized_char('Ν') == Some('ν') && normalized_char('ξ') == Some('ξ')
            && normalized_char('Ξ') == Some('ξ'),
        normalized_char('ο') == Some('ο') && normalized_char('π') == Some('π') && normalized_char('Π') == Some('π'),
        normalized_char('ρ') == Some('ρ') && normalized_char('Ρ') == Some('ρ') && normalized_char('ῥ') == Some('ρ'),
        normalized_char('τ') == Some('τ') && normalized_char('Τ') == Some('τ') && normalized_char('υ') == Some('υ'),
        normalized_char('φ') == Some('φ') && normalized_char('Φ') == Some('φ') && normalized_char('χ') == Some('χ')
            && normalized_char('Χ') == Some('χ'),
        normalized_char('ψ') == Some('ψ') && normalized_char('Ψ') == Some('ψ') && normalized_char('ω') == Some('ω'),
        forall|ch: char| (#[trigger] normalized_char(ch)) is Some ==> normalized_char(normalized_char(ch)->0) == normalized_char(ch),
{
    assert forall|ch: char| (#[trigger] normalized_char(ch)) is Some implies normalized_char(normalized_char(ch)->0) == normalized_char(ch) by {
        lemma_normalized_char_fixed(ch);
    }
}

} // verus!
