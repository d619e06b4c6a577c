//! Character-sequence helpers: whitespace, trimming, splitting and joining,
//! stated over `Seq<char>` views of strings.
use vstd::prelude::*;

verus! {

/// The Unicode `White_Space` property, which `char::is_whitespace` documents.
pub open spec fn is_white_space(c: char) -> bool {
    ||| ('\u{9}' <= c && c <= '\u{d}')
    ||| c == ' '
    ||| c == '\u{85}'
    ||| c == '\u{a0}'
    ||| c == '\u{1680}'
    ||| ('\u{2000}' <= c && c <= '\u{200a}')
    ||| c == '\u{2028}'
    ||| c == '\u{2029}'
    ||| c == '\u{202f}'
    ||| c == '\u{205f}'
    ||| c == '\u{3000}'
}

pub fn is_white_space_char(c: char) -> (b: bool)
    ensures
        b == is_white_space(c),
{
    ('\u{9}' <= c && c <= '\u{d}') || c == ' ' || c == '\u{85}' || c == '\u{a0}' || c == '\u{1680}'
        || ('\u{2000}' <= c && c <= '\u{200a}') || c == '\u{2028}' || c == '\u{2029}' || c
        == '\u{202f}' || c == '\u{205f}' || c == '\u{3000}'
}

/// A new string holding the characters of `s`.
pub fn string_from_str(s: &str) -> (r: String)
    ensures
        r@ == s@,
{
    let v = chars_of(s);
    string_of(v.as_slice())
}

/// Appends one character to a string (`String::push`).
#[verifier::external_body]
pub(crate) fn push_char(s: &mut String, c: char)
    ensures
        final(s)@ == old(s)@.push(c),
{
    s.push(c);
}

/// The characters of a string, in order.
pub fn chars_of(s: &str) -> (v: Vec<char>)
    ensures
        v@ == s@,
{
    let n = s.unicode_len();
    let mut v: Vec<char> = Vec::new();
    let mut i: usize = 0;
    while i < n
        invariant
            n == s@.len(),
            i <= n,
            v@ == s@.take(i as int),
        decreases n - i,
    {
        v.push(s.get_char(i));
        i = i + 1;
        assert(v@ =~= s@.take(i as int));
    }
    assert(s@.take(n as int) =~= s@);
    v
}

/// A string made of the given characters.
pub fn string_of(v: &[char]) -> (s: String)
    ensures
        s@ == v@,
{
    let mut s = String::new();
    let mut i: usize = 0;
    while i < v.len()
        invariant
            i <= v@.len(),
            s@ == v@.take(i as int),
        decreases v@.len() - i,
    {
        push_char(&mut s, v[i]);
        i = i + 1;
        assert(s@ =~= v@.take(i as int));
    }
    assert(v@.take(v@.len() as int) =~= v@);
    s
}


/// Whether two character sequences are equal.
pub fn chars_eq(a: &[char], b: &[char]) -> (r: bool)
    ensures
        r == (a@ == b@),
{
    if a.len() != b.len() {
        return false;
    }
    let mut i: usize = 0;
    while i < a.len()
        invariant
            a@.len() == b@.len(),
            i <= a@.len(),
            forall|k: int| 0 <= k < i ==> a@[k] == b@[k],
        decreases a@.len() - i,
    {
        if a[i] != b[i] {
            return false;
        }
        i = i + 1;
    }
    assert(a@ =~= b@);
    true
}

/// Whether two string slices hold the same characters.
pub fn str_eq(a: &str, b: &str) -> (r: bool)
    ensures
        r == (a@ == b@),
{
    let x = chars_of(a);
    let y = chars_of(b);
    chars_eq(x.as_slice(), y.as_slice())
}

/// Whether `pat` occurs in `s` starting at index `i`.
pub open spec fn matches_at(s: Seq<char>, pat: Seq<char>, i: int) -> bool {
    0 <= i && i + pat.len() <= s.len() && s.subrange(i, i + pat.len()) == pat
}

/// The first index at or after `i` where `pat` occurs in `s`.
pub open spec fn find_from(s: Seq<char>, pat: Seq<char>, i: nat) -> Option<nat>
    decreases s.len() - i,
{
    if i + pat.len() > s.len() {
        None
    } else if pat.len() == 0 || s.subrange(i as int, (i + pat.len()) as int) == pat {
        Some(i)
    } else {
        find_from(s, pat, i + 1)
    }
}

/// Whether `pat` occurs anywhere in `s`.
pub open spec fn contains_seq(s: Seq<char>, pat: Seq<char>) -> bool {
    find_from(s, pat, 0) is Some
}

pub proof fn lemma_find_from(s: Seq<char>, pat: Seq<char>, i: nat)
    ensures
        find_from(s, pat, i) matches Some(j) ==> i <= j && matches_at(s, pat, j as int) && forall|
            k: int,
        |
            i <= k < j ==> !matches_at(s, pat, k),
        find_from(s, pat, i) is None ==> forall|k: int| i <= k ==> !matches_at(s, pat, k),
    decreases s.len() - i,
{
    if i + pat.len() > s.len() {
    } else if pat.len() == 0 || s.subrange(i as int, (i + pat.len()) as int) == pat {
        if pat.len() == 0 {
            assert(s.subrange(i as int, i as int) =~= pat);
        }
    } else {
        lemma_find_from(s, pat, i + 1);
    }
}

/// The pieces of `s` between the occurrences of `pat`, scanning left to right
/// (`str::split` with a non-empty string pattern).
pub open spec fn split_by(s: Seq<char>, pat: Seq<char>) -> Seq<Seq<char>>
    decreases s.len(),
{
    if pat.len() == 0 {
        seq![s]
    } else {
        match find_from(s, pat, 0) {
            None => seq![s],
            Some(j) => {
                proof {
                    lemma_find_from(s, pat, 0);
                }
                seq![s.take(j as int)] + split_by(s.skip((j + pat.len()) as int), pat)
            },
        }
    }
}

/// The parts joined with `sep` between consecutive parts (`[T]::join`).
pub open spec fn join_by(parts: Seq<Seq<char>>, sep: Seq<char>) -> Seq<char>
    decreases parts.len(),
{
    if parts.len() == 0 {
        Seq::empty()
    } else if parts.len() == 1 {
        parts[0]
    } else {
        join_by(parts.drop_last(), sep) + sep + parts.last()
    }
}

/// Whether `pat` occurs in `s` at index `i` (executable form of `matches_at`).
pub fn matches_at_exec(s: &[char], pat: &[char], i: usize) -> (r: bool)
    ensures
        r == matches_at(s@, pat@, i as int),
{
    let slen = s.len();
    if i > slen || pat.len() > slen - i {
        return false;
    }
    let mut k: usize = 0;
    while k < pat.len()
        invariant
            slen == s@.len(),
            i + pat@.len() <= s@.len(),
            k <= pat@.len(),
            forall|t: int| 0 <= t < k ==> s@[i + t] == pat@[t],
        decreases pat@.len() - k,
    {
        if s[i + k] != pat[k] {
            assert(s@.subrange(i as int, i + pat@.len())[k as int] != pat@[k as int]);
            return false;
        }
        k = k + 1;
    }
    assert(s@.subrange(i as int, i + pat@.len()) =~= pat@);
    true
}

/// Whether `pat` occurs somewhere in `s`.
pub fn contains_chars(s: &[char], pat: &[char]) -> (r: bool)
    ensures
        r == contains_seq(s@, pat@),
{
    let slen = s.len();
    let mut i: usize = 0;
    while i < slen
        invariant
            slen == s@.len(),
            i <= s@.len(),
            forall|k: int| 0 <= k < i ==> !matches_at(s@, pat@, k),
        decreases s@.len() - i,
    {
        if matches_at_exec(s, pat, i) {
            proof {
                lemma_find_from(s@, pat@, 0);
            }
            return true;
        }
        i = i + 1;
    }
    let last = matches_at_exec(s, pat, slen);
    proof {
        lemma_find_from(s@, pat@, 0);
        if !last {
            assert forall|k: int| 0 <= k implies !matches_at(s@, pat@, k) by {
                if k > slen {
                    assert(k + pat@.len() > s@.len());
                }
            }
        }
    }
    last
}

/// Whether the string `pat` occurs in the string `s`.
pub fn str_contains(s: &str, pat: &str) -> (r: bool)
    ensures
        r == contains_seq(s@, pat@),
{
    let x = chars_of(s);
    let y = chars_of(pat);
    contains_chars(x.as_slice(), y.as_slice())
}

proof fn lemma_find_step(t: Seq<char>, pat: Seq<char>, k: nat)
    requires
        !matches_at(t, pat, k as int),
    ensures
        find_from(t, pat, k) == find_from(t, pat, k + 1),
{
    if k + pat.len() <= t.len() && pat.len() == 0 {
        assert(t.subrange(k as int, k as int) =~= pat);
    }
}

proof fn lemma_find_skip(s: Seq<char>, pat: Seq<char>, start: nat, i: nat)
    requires
        start <= i,
        start <= s.len(),
        forall|k: int| start <= k < i ==> !matches_at(s, pat, k),
    ensures
        find_from(s.skip(start as int), pat, 0) == find_from(s.skip(start as int), pat, (i - start) as nat),
    decreases i - start,
{
    if i > start {
        lemma_find_skip(s, pat, start, (i - 1) as nat);
        let t = s.skip(start as int);
        let k = (i - 1 - start) as nat;
        assert(!matches_at(s, pat, i - 1));
        if k + pat.len() <= t.len() {
            assert(t.subrange(k as int, (k + pat.len()) as int) =~= s.subrange(i - 1, i - 1 + pat.len()));
        }
        lemma_find_step(t, pat, k);
    }
}

/// The pieces of `s` between the occurrences of the non-empty pattern `pat`.
pub fn split_chars(s: &[char], pat: &[char]) -> (parts: Vec<String>)
    requires
        pat@.len() > 0,
    ensures
        parts.deep_view() == split_by(s@, pat@),
{
    let slen = s.len();
    let plen = pat.len();
    let mut parts: Vec<String> = Vec::new();
    let mut start: usize = 0;
    let mut i: usize = 0;
    let mut current: Vec<char> = Vec::new();
    assert(s@.skip(0) =~= s@);
    assert(parts.deep_view() + split_by(s@.skip(0), pat@) =~= split_by(s@, pat@));
    while plen <= slen - i
        invariant
            slen == s@.len(),
            plen == pat@.len(),
            pat@.len() > 0,
            start <= i,
            i <= s@.len(),
            current@ == s@.subrange(start as int, i as int),
            parts.deep_view() + split_by(s@.skip(start as int), pat@) == split_by(s@, pat@),
            forall|k: int| start <= k < i ==> !matches_at(s@, pat@, k),
        decreases s@.len() - i,
    {
        if matches_at_exec(s, pat, i) {
            let ghost old_parts = parts.deep_view();
            proof {
                lemma_find_skip(s@, pat@, start as nat, i as nat);
                let t = s@.skip(start as int);
                assert(t.subrange((i - start) as int, (i - start) + pat@.len()) =~= s@.subrange(
                    i as int,
                    i + pat@.len(),
                ));
                assert(find_from(t, pat@, (i - start) as nat) == Some((i - start) as nat));
                assert(t.take((i - start) as int) =~= current@);
                assert(t.skip((i - start) + pat@.len()) =~= s@.skip(i + pat@.len()));
                assert(split_by(t, pat@) == seq![current@] + split_by(s@.skip(i + pat@.len()), pat@));
                assert(old_parts.push(current@) + split_by(s@.skip(i + pat@.len()), pat@)
                    =~= old_parts + split_by(t, pat@));
            }
            parts.push(string_of(current.as_slice()));
            assert(parts.deep_view() =~= old_parts.push(current@));
            current = Vec::new();
            i = i + plen;
            start = i;
            proof {
                assert(current@ =~= s@.subrange(start as int, i as int));
            }
        } else {
            current.push(s[i]);
            i = i + 1;
            proof {
                assert(current@ =~= s@.subrange(start as int, i as int));
            }
        }
    }
    proof {
        let t = s@.skip(start as int);
        lemma_find_skip(s@, pat@, start as nat, i as nat);
        assert(find_from(t, pat@, (i - start) as nat) is None);
    }
    while i < slen
        invariant
            slen == s@.len(),
            start <= i,
            i <= s@.len(),
            current@ == s@.subrange(start as int, i as int),
        decreases s@.len() - i,
    {
        current.push(s[i]);
        i = i + 1;
        proof {
            assert(current@ =~= s@.subrange(start as int, i as int));
        }
    }
    let ghost old_parts = parts.deep_view();
    proof {
        assert(current@ =~= s@.skip(start as int));
        assert(old_parts.push(current@) =~= old_parts + seq![current@]);
    }
    parts.push(string_of(current.as_slice()));
    assert(parts.deep_view() =~= old_parts.push(current@));
    parts
}


/// `parts` joined into one string with `sep` between consecutive parts.
pub fn join_strings(parts: &[String], sep: &str) -> (r: String)
    ensures
        r@ == join_by(parts.deep_view(), sep@),
{
    let mut r = String::new();
    let mut i: usize = 0;
    while i < parts.len()
        invariant
            i <= parts@.len(),
            r@ == join_by(parts.deep_view().take(i as int), sep@),
        decreases parts@.len() - i,
    {
        let ghost before = parts.deep_view().take(i as int);
        if i > 0 {
            r.append(sep);
        }
        r.append(parts[i].as_str());
        proof {
            let next = parts.deep_view().take(i + 1);
            assert(next.drop_last() =~= before);
            if i == 0 {
                assert(before.len() == 0);
            }
        }
        i = i + 1;
    }
    assert(parts.deep_view().take(parts@.len() as int) =~= parts.deep_view());
    r
}

/// Character classes that the text functions trim on or split on.
#[derive(Clone, Copy, PartialEq, Eq, Debug)]
pub enum CharSet {
    WhiteSpace,
    Slash,
    Comma,
    CommaOrSlash,
    Hash,
    Ampersand,
    Underscore,
    NonAlphabetic,
}

/// The Unicode `Alphabetic` property (`char::is_alphabetic`).
pub uninterp spec fn unicode_alphabetic(c: char) -> bool;

/// `char::is_alphabetic`: whether `c` has the Unicode `Alphabetic` property.
#[verifier::external_body]
fn char_is_alphabetic(c: char) -> (b: bool)
    ensures
        b == unicode_alphabetic(c),
{
    c.is_alphabetic()
}

pub open spec fn in_char_set(cs: CharSet, c: char) -> bool {
    match cs {
        CharSet::WhiteSpace => is_white_space(c),
        CharSet::Slash => c == '/',
        CharSet::Comma => c == ',',
        CharSet::CommaOrSlash => c == ',' || c == '/',
        CharSet::Hash => c == '#',
        CharSet::Ampersand => c == '&',
        CharSet::Underscore => c == '_',
        CharSet::NonAlphabetic => !unicode_alphabetic(c),
    }
}

pub fn char_in_set(cs: CharSet, c: char) -> (b: bool)
    ensures
        b == in_char_set(cs, c),
{
    match cs {
        CharSet::WhiteSpace => is_white_space_char(c),
        CharSet::Slash => c == '/',
        CharSet::Comma => c == ',',
        CharSet::CommaOrSlash => c == ',' || c == '/',
        CharSet::Hash => c == '#',
        CharSet::Ampersand => c == '&',
        CharSet::Underscore => c == '_',
        CharSet::NonAlphabetic => !char_is_alphabetic(c),
    }
}

/// `s` without its leading characters in `cs`.
pub open spec fn trim_start_set(s: Seq<char>, cs: CharSet) -> Seq<char>
    decreases s.len(),
{
    if s.len() > 0 && in_char_set(cs, s[0]) {
        trim_start_set(s.drop_first(), cs)
    } else {
        s
    }
}

/// `s` without its trailing characters in `cs`.
pub open spec fn trim_end_set(s: Seq<char>, cs: CharSet) -> Seq<char>
    decreases s.len(),
{
    if s.len() > 0 && in_char_set(cs, s.last()) {
        trim_end_set(s.drop_last(), cs)
    } else {
        s
    }
}

/// `s` without the leading and trailing characters in `cs` (`str::trim_matches`).
pub open spec fn trim_set(s: Seq<char>, cs: CharSet) -> Seq<char> {
    trim_end_set(trim_start_set(s, cs), cs)
}

/// `s` without leading and trailing white space (`str::trim`).
pub open spec fn trim(s: Seq<char>) -> Seq<char> {
    trim_set(s, CharSet::WhiteSpace)
}

/// `s` with the leading and trailing characters in `cs` removed.
pub fn trim_chars(s: &[char], cs: CharSet) -> (r: Vec<char>)
    ensures
        r@ == trim_set(s@, cs),
{
    let n = s.len();
    let mut a: usize = 0;
    assert(s@.skip(0) =~= s@);
    while a < n && char_in_set(cs, s[a])
        invariant
            n == s@.len(),
            a <= n,
            trim_start_set(s@, cs) == trim_start_set(s@.skip(a as int), cs),
        decreases n - a,
    {
        assert(s@.skip(a as int).drop_first() =~= s@.skip(a + 1));
        a = a + 1;
    }
    assert(trim_start_set(s@, cs) == s@.skip(a as int));
    assert(s@.skip(a as int) =~= s@.subrange(a as int, n as int));
    let mut b: usize = n;
    while b > a && char_in_set(cs, s[b - 1])
        invariant
            n == s@.len(),
            a <= b <= n,
            trim_set(s@, cs) == trim_end_set(s@.subrange(a as int, b as int), cs),
        decreases b,
    {
        assert(s@.subrange(a as int, b as int).drop_last() =~= s@.subrange(a as int, b - 1));
        b = b - 1;
    }
    let mut r: Vec<char> = Vec::new();
    let mut k: usize = a;
    while k < b
        invariant
            n == s@.len(),
            a <= k <= b <= n,
            r@ == s@.subrange(a as int, k as int),
        decreases b - k,
    {
        r.push(s[k]);
        k = k + 1;
        assert(r@ =~= s@.subrange(a as int, k as int));
    }
    r
}

/// The string `s` with leading and trailing white space removed.
pub fn trim_str(s: &str) -> (r: String)
    ensures
        r@ == trim(s@),
{
    let v = chars_of(s);
    let t = trim_chars(v.as_slice(), CharSet::WhiteSpace);
    string_of(t.as_slice())
}

/// The pieces of `s` between single characters of `cs` (`str::split` with a
/// character predicate).
pub open spec fn split_set(s: Seq<char>, cs: CharSet) -> Seq<Seq<char>>
    decreases s.len(),
{
    if s.len() == 0 {
        seq![Seq::empty()]
    } else {
        let r = split_set(s.drop_last(), cs);
        if in_char_set(cs, s.last()) {
            r.push(Seq::empty())
        } else {
            r.update(r.len() - 1, r.last().push(s.last()))
        }
    }
}

proof fn lemma_split_set_len(s: Seq<char>, cs: CharSet)
    ensures
        split_set(s, cs).len() >= 1,
    decreases s.len(),
{
    if s.len() > 0 {
        lemma_split_set_len(s.drop_last(), cs);
    }
}

/// The pieces of `s` between the characters of `cs`.
pub fn split_chars_on(s: &[char], cs: CharSet) -> (parts: Vec<String>)
    ensures
        parts.deep_view() == split_set(s@, cs),
{
    let n = s.len();
    let mut parts: Vec<String> = Vec::new();
    let mut current: Vec<char> = Vec::new();
    let mut i: usize = 0;
    assert(s@.take(0) =~= Seq::<char>::empty());
    assert(parts.deep_view().push(current@) =~= seq![Seq::<char>::empty()]);
    while i < n
        invariant
            n == s@.len(),
            i <= n,
            split_set(s@.take(i as int), cs) == parts.deep_view().push(current@),
        decreases n - i,
    {
        let c = s[i];
        proof {
            assert(s@.take(i + 1).drop_last() =~= s@.take(i as int));
            lemma_split_set_len(s@.take(i as int), cs);
        }
        if char_in_set(cs, c) {
            let ghost old_parts = parts.deep_view();
            let ghost old_current = current@;
            parts.push(string_of(current.as_slice()));
            assert(parts.deep_view() =~= old_parts.push(old_current));
            current = Vec::new();
            assert(parts.deep_view().push(current@) =~= old_parts.push(old_current).push(
                Seq::empty(),
            ));
        } else {
            let ghost old_current = current@;
            current.push(c);
            assert(parts.deep_view().push(current@) =~= parts.deep_view().push(old_current).update(
                parts.deep_view().len() as int,
                old_current.push(c),
            ));
        }
        i = i + 1;
    }
    assert(s@.take(n as int) =~= s@);
    let ghost old_parts = parts.deep_view();
    parts.push(string_of(current.as_slice()));
    assert(parts.deep_view() =~= old_parts.push(current@));
    parts
}

/// The lowercase mapping of Unicode (`str::to_lowercase`).
pub uninterp spec fn unicode_lowercase(s: Seq<char>) -> Seq<char>;

/// `str::to_lowercase`: the lowercase equivalent of `s`.
#[verifier::external_body]
pub(crate) fn to_lowercase(s: &str) -> (r: String)
    ensures
        r@ == unicode_lowercase(s@),
{
    s.to_lowercase()
}

/// The uppercase mapping of one character in Unicode (`char::to_uppercase`).
pub uninterp spec fn unicode_char_uppercase(c: char) -> Seq<char>;

/// `char::to_uppercase`: the characters that `c` maps to in uppercase.
#[verifier::external_body]
pub(crate) fn char_to_uppercase(c: char) -> (r: String)
    ensures
        r@ == unicode_char_uppercase(c),
{
    c.to_uppercase().collect()
}

/// `s` with its first character mapped to uppercase.
pub open spec fn title_case(s: Seq<char>) -> Seq<char> {
    if s.len() == 0 {
        Seq::empty()
    } else {
        unicode_char_uppercase(s[0]) + s.drop_first()
    }
}

/// The string `s` with its first character mapped to uppercase.
pub fn title_case_str(s: &str) -> (r: String)
    ensures
        r@ == title_case(s@),
{
    let v = chars_of(s);
    if v.len() == 0 {
        return String::new();
    }
    let mut r = char_to_uppercase(v[0]);
    let mut i: usize = 1;
    while i < v.len()
        invariant
            1 <= i <= v@.len(),
            v@ == s@,
            r@ == unicode_char_uppercase(v@[0]) + v@.subrange(1, i as int),
        decreases v@.len() - i,
    {
        push_char(&mut r, v[i]);
        i = i + 1;
        assert(r@ =~= unicode_char_uppercase(v@[0]) + v@.subrange(1, i as int));
    }
    assert(v@.subrange(1, v@.len() as int) =~= s@.drop_first());
    r
}


/// The decimal digit character for `d` (`0` to `9`).
pub open spec fn digit_char(d: int) -> char {
    (('0' as int) + d) as char
}

/// The decimal digits of `m`, without leading zeros.
pub open spec fn decimal_nat(m: nat) -> Seq<char>
    decreases m,
{
    if m < 10 {
        seq![digit_char(m as int)]
    } else {
        decimal_nat(m / 10).push(digit_char((m % 10) as int))
    }
}

/// The decimal text of an integer, as `Display` writes it: a minus sign for a
/// negative number, then the digits.
pub open spec fn decimal(n: int) -> Seq<char> {
    if n < 0 {
        seq!['-'] + decimal_nat((-n) as nat)
    } else {
        decimal_nat(n as nat)
    }
}

fn push_decimal(s: &mut String, m: u64)
    ensures
        final(s)@ == old(s)@ + decimal_nat(m as nat),
    decreases m,
{
    if m >= 10 {
        push_decimal(s, m / 10);
    }
    let d = (m % 10) as u8;
    let c = (48u8 + d) as char;
    push_char(s, c);
    proof {
        if m >= 10 {
            assert(old(s)@ + decimal_nat(m as nat) =~= old(s)@ + decimal_nat((m / 10) as nat) + seq![c]);
        } else {
            assert(old(s)@ + decimal_nat(m as nat) =~= old(s)@ + seq![c]);
        }
    }
}

/// The decimal text of `n`.
pub fn decimal_string(n: i64) -> (r: String)
    ensures
        r@ == decimal(n as int),
{
    let mut r = String::new();
    if n < 0 {
        push_char(&mut r, '-');
        let m: u64 = (0i128 - (n as i128)) as u64;
        push_decimal(&mut r, m);
        assert(r@ =~= seq!['-'] + decimal_nat((-n) as nat));
    } else {
        push_decimal(&mut r, n as u64);
        assert(r@ =~= decimal_nat(n as nat));
    }
    r
}

/// `prefix` followed by the decimal text of the count `n`.
pub fn prefixed_count(prefix: &str, n: usize) -> (r: String)
    ensures
        r@ == prefix@ + decimal(n as int),
{
    let mut r = string_from_str(prefix);
    push_decimal(&mut r, n as u64);
    r
}

/// `prefix` followed by the decimal text of `n` (as `format!("{prefix}{n}")`).
pub fn prefixed_decimal(prefix: &str, n: i64) -> (r: String)
    ensures
        r@ == prefix@ + decimal(n as int),
{
    let mut r = string_from_str(prefix);
    let d = decimal_string(n);
    r.append(d.as_str());
    r
}

} // verus!
