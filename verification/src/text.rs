//! Character-sequence toolkit shared by every part of the library.
//!
//! Text is modelled as `Seq<char>`. Executable code works on `Vec<char>`
//! (obtained once from a `&str`) and turns the result back into a `String`.
//! Each operation that mirrors a standard-library string method is stated as a
//! short spec function and proved against it.
use vstd::prelude::*;

verus! {

// ---------------------------------------------------------------------------
// Unicode character classes and case mapping (standard library tables)
// ---------------------------------------------------------------------------

/// Whether `c` has the Unicode White_Space property (`char::is_whitespace`): tab, line
/// feed, vertical tab, form feed, carriage return, space, next line, no-break space,
/// ogham space mark, the spaces U+2000 to U+200A, line and paragraph separator, narrow
/// no-break space, medium mathematical space and ideographic space.
#[verifier::opaque]
pub open spec fn white_space(c: char) -> bool {
    let u = c as u32;
    (0x09 <= u <= 0x0D) || u == 0x20 || u == 0x85 || u == 0xA0 || u == 0x1680 || (0x2000 <= u
        <= 0x200A) || u == 0x2028 || u == 0x2029 || u == 0x202F || u == 0x205F || u == 0x3000
}

/// Whether `char::is_alphanumeric` holds of `c`.
pub uninterp spec fn alphanumeric(c: char) -> bool;

/// Whether `char::is_alphabetic` holds of `c`.
pub uninterp spec fn alphabetic(c: char) -> bool;

/// Whether `char::is_uppercase` holds of `c`.
pub uninterp spec fn uppercase(c: char) -> bool;

/// The characters that `char::to_lowercase` yields for `c`.
pub uninterp spec fn char_lowercase(c: char) -> Seq<char>;

/// What `str::to_lowercase` returns for a string with the characters `s`.
pub uninterp spec fn str_lowercase(s: Seq<char>) -> Seq<char>;

/// What `str::to_uppercase` returns for a string with the characters `s`.
pub uninterp spec fn str_uppercase(s: Seq<char>) -> Seq<char>;

/// Whether the regex class `\w` (Unicode word character) holds of `c`.
pub uninterp spec fn regex_word_char(c: char) -> bool;

/// Whether the regex class `\d` (Unicode decimal digit) holds of `c`.
pub uninterp spec fn regex_digit(c: char) -> bool;

/// Whether `c` is white space (`char::is_whitespace`).
pub fn is_white_space(c: char) -> (b: bool)
    ensures
        b == white_space(c),
{
    proof {
        reveal(white_space);
    }
    let u = c as u32;
    (0x09 <= u && u <= 0x0D) || u == 0x20 || u == 0x85 || u == 0xA0 || u == 0x1680 || (0x2000 <= u
        && u <= 0x200A) || u == 0x2028 || u == 0x2029 || u == 0x202F || u == 0x205F || u == 0x3000
}

/// Whether `c` is an ASCII letter.
pub open spec fn ascii_letter(c: char) -> bool {
    ('a' <= c && c <= 'z') || ('A' <= c && c <= 'Z')
}

/// Whether `c` is an ASCII capital letter.
pub open spec fn ascii_capital(c: char) -> bool {
    'A' <= c && c <= 'Z'
}

/// Whether `c` is an ASCII digit.
pub open spec fn ascii_digit(c: char) -> bool {
    '0' <= c && c <= '9'
}

/// Whether `c` is an ASCII character.
pub open spec fn ascii(c: char) -> bool {
    (c as u32) < 128
}

/// The ASCII lowercase of `c` (other characters unchanged).
pub open spec fn ascii_lower(c: char) -> char {
    if 'A' <= c && c <= 'Z' {
        ((c as u32) + 32) as char
    } else {
        c
    }
}

/// The ASCII uppercase of `c` (other characters unchanged).
pub open spec fn ascii_upper(c: char) -> char {
    if 'a' <= c && c <= 'z' {
        ((c as u32) - 32) as char
    } else {
        c
    }
}

/// Whether every character of `s` is ASCII.
pub open spec fn all_ascii(s: Seq<char>) -> bool {
    forall|i: int| 0 <= i < s.len() ==> ascii(#[trigger] s[i])
}

/// `char::is_alphanumeric`; its result is the Unicode property of `c`. On ASCII
/// characters it holds exactly of letters and digits.
#[verifier::external_body]
pub(crate) fn is_alphanumeric(c: char) -> (b: bool)
    ensures
        b == alphanumeric(c),
        ascii(c) ==> (b <==> ascii_letter(c) || ascii_digit(c)),
{
    c.is_alphanumeric()
}

/// `char::is_alphabetic`; its result is the Unicode Alphabetic property of `c`. On
/// ASCII characters it holds exactly of letters.
#[verifier::external_body]
pub(crate) fn is_alphabetic(c: char) -> (b: bool)
    ensures
        b == alphabetic(c),
        ascii(c) ==> (b <==> ascii_letter(c)),
{
    c.is_alphabetic()
}

/// `char::is_uppercase`; its result is the Unicode Uppercase property of `c`. On ASCII
/// characters it holds exactly of `A` to `Z`.
#[verifier::external_body]
pub(crate) fn is_uppercase(c: char) -> (b: bool)
    ensures
        b == uppercase(c),
        ascii(c) ==> (b <==> ascii_capital(c)),
{
    c.is_uppercase()
}

/// `char::to_lowercase`, collected; the result is the named lowercase mapping of `c`;
/// an ASCII character maps to its ASCII lowercase alone.
#[verifier::external_body]
pub(crate) fn lowercase_of_char(c: char) -> (v: Vec<char>)
    ensures
        v@ == char_lowercase(c),
        ascii(c) ==> v@ == seq![ascii_lower(c)],
{
    c.to_lowercase().collect()
}

/// `str::to_lowercase` on the characters `s`; the result is the named mapping of `s`;
/// an ASCII text maps character by character to its ASCII lowercase.
#[verifier::external_body]
pub(crate) fn lowercase(s: &[char]) -> (v: Vec<char>)
    ensures
        v@ == str_lowercase(s@),
        all_ascii(s@) ==> v@ == s@.map_values(|c: char| ascii_lower(c)),
{
    let t: String = s.iter().collect();
    t.to_lowercase().chars().collect()
}

/// `str::to_uppercase` on the characters `s`; the result is the named mapping of `s`;
/// an ASCII text maps character by character to its ASCII uppercase.
#[verifier::external_body]
pub(crate) fn uppercase_of(s: &[char]) -> (v: Vec<char>)
    ensures
        v@ == str_uppercase(s@),
        all_ascii(s@) ==> v@ == s@.map_values(|c: char| ascii_upper(c)),
{
    let t: String = s.iter().collect();
    t.to_uppercase().chars().collect()
}

/// `regex::Regex::is_match` of the pattern `^\w$` on the one-character text `c`; on
/// ASCII characters `\w` is `[0-9A-Za-z_]`.
#[verifier::external_body]
pub(crate) fn is_regex_word_char(c: char) -> (b: bool)
    ensures
        b == regex_word_char(c),
        ascii(c) ==> (b <==> ascii_letter(c) || ascii_digit(c) || c == '_'),
{
    let re = regex::Regex::new(r"^\w$").unwrap();
    re.is_match(c.encode_utf8(&mut [0u8; 4]))
}

/// `regex::Regex::is_match` of the pattern `^\d$` on the one-character text `c`; on
/// ASCII characters `\d` is `[0-9]`.
#[verifier::external_body]
pub(crate) fn is_regex_digit(c: char) -> (b: bool)
    ensures
        b == regex_digit(c),
        ascii(c) ==> (b <==> ascii_digit(c)),
{
    let re = regex::Regex::new(r"^\d$").unwrap();
    re.is_match(c.encode_utf8(&mut [0u8; 4]))
}

// ---------------------------------------------------------------------------
// Conversions between `&str`, `Vec<char>` and `String`
// ---------------------------------------------------------------------------

/// The characters of a string slice, in order.
pub fn chars_of(s: &str) -> (v: Vec<char>)
    ensures
        v@ == s@,
{
    let mut v: Vec<char> = Vec::new();
    for c in it: s.chars()
        invariant
            v@ == it.seq().take(it.index() as int),
    {
        v.push(c);
    }
    v
}

/// Appends one character to a string (`String::push`).
#[verifier::external_body]
pub(crate) fn push_char(s: &mut String, c: char)
    ensures
        final(s)@ == old(s)@.push(c),
{
    s.push(c);
}

/// The string made of the given characters.
pub fn string_of(v: &[char]) -> (s: String)
    ensures
        s@ == v@,
{
    let mut s = String::new();
    let mut i: usize = 0;
    while i < v.len()
        invariant
            i <= v.len(),
            s@ == v@.take(i as int),
        decreases v.len() - i,
    {
        push_char(&mut s, v[i]);
        assert(v@.take(i as int).push(v@[i as int]) =~= v@.take(i + 1));
        i += 1;
    }
    assert(v@.take(v.len() as int) =~= v@);
    s
}

/// The characters of a string literal or slice, as a vector (alias of `chars_of`
/// that reads well when the argument is a fixed piece of markup).
pub fn lit(s: &str) -> (v: Vec<char>)
    ensures
        v@ == s@,
{
    chars_of(s)
}

/// Appends `w` to `v`.
pub fn push_all(v: &mut Vec<char>, w: &[char])
    ensures
        final(v)@ == old(v)@ + w@,
{
    let ghost start = v@;
    let mut i: usize = 0;
    while i < w.len()
        invariant
            i <= w.len(),
            v@ == start + w@.take(i as int),
        decreases w.len() - i,
    {
        v.push(w[i]);
        assert(start + w@.take(i as int).push(w@[i as int]) =~= start + w@.take(i + 1));
        i += 1;
    }
    assert(w@.take(w.len() as int) =~= w@);
}

/// Appends the characters of the string slice `s` to `v`.
pub fn push_str(v: &mut Vec<char>, s: &str)
    ensures
        final(v)@ == old(v)@ + s@,
{
    let w = chars_of(s);
    push_all(v, &w);
}

/// A copy of the characters `v[from..to]`.
pub fn slice_chars(v: &[char], from: usize, to: usize) -> (r: Vec<char>)
    requires
        from <= to <= v.len(),
    ensures
        r@ == v@.subrange(from as int, to as int),
{
    let mut r: Vec<char> = Vec::new();
    let mut i = from;
    while i < to
        invariant
            from <= i <= to <= v.len(),
            r@ == v@.subrange(from as int, i as int),
        decreases to - i,
    {
        r.push(v[i]);
        assert(v@.subrange(from as int, i as int).push(v@[i as int]) =~= v@.subrange(
            from as int,
            i + 1,
        ));
        i += 1;
    }
    r
}

/// A copy of a vector of characters.
pub fn copy_chars(v: &[char]) -> (r: Vec<char>)
    ensures
        r@ == v@,
{
    let r = slice_chars(v, 0, v.len());
    assert(v@.subrange(0, v@.len() as int) =~= v@);
    r
}

/// Whether two character sequences are equal.
pub fn chars_eq(a: &[char], b: &[char]) -> (r: bool)
    ensures
        r == (a@ == b@),
{
    if a.len() != b.len() {
        return false;
    }
    let mut i: usize = 0;
    while i < a.len()
        invariant
            a.len() == b.len(),
            i <= a.len(),
            forall|j: int| 0 <= j < i ==> a@[j] == b@[j],
        decreases a.len() - i,
    {
        if a[i] != b[i] {
            return false;
        }
        i += 1;
    }
    assert(a@ =~= b@);
    true
}

// ---------------------------------------------------------------------------
// Searching
// ---------------------------------------------------------------------------

/// Whether `pat` occurs in `s` starting at index `i`.
pub open spec fn matches_at(s: Seq<char>, pat: Seq<char>, i: int) -> bool {
    0 <= i && i + pat.len() <= s.len() && s.subrange(i, i + pat.len()) == pat
}

/// `s` begins with `pat` (`str::starts_with`).
pub open spec fn starts_with(s: Seq<char>, pat: Seq<char>) -> bool {
    matches_at(s, pat, 0)
}

/// `s` ends with `pat` (`str::ends_with`).
pub open spec fn ends_with(s: Seq<char>, pat: Seq<char>) -> bool {
    matches_at(s, pat, s.len() - pat.len())
}

/// The first index `j >= from` at which `pat` occurs in `s`.
pub open spec fn find_from(s: Seq<char>, pat: Seq<char>, from: int) -> Option<int>
    decreases s.len() - from,
{
    if from < 0 || from + pat.len() > s.len() {
        None
    } else if matches_at(s, pat, from) {
        Some(from)
    } else if pat.len() == 0 {
        Some(from)
    } else {
        find_from(s, pat, from + 1)
    }
}

/// Whether `pat` occurs anywhere in `s` (`str::contains`).
pub open spec fn contains(s: Seq<char>, pat: Seq<char>) -> bool {
    find_from(s, pat, 0) is Some
}

/// The first index `j >= from` holding the character `c`.
pub open spec fn find_char(s: Seq<char>, c: char, from: int) -> Option<int>
    decreases s.len() - from,
{
    if from < 0 || from >= s.len() {
        None
    } else if s[from] == c {
        Some(from)
    } else {
        find_char(s, c, from + 1)
    }
}

/// What `find_from` returns is an occurrence, and no earlier one exists.
pub proof fn lemma_find_from(s: Seq<char>, pat: Seq<char>, from: int)
    ensures
        find_from(s, pat, from) matches Some(j) ==> from <= j && matches_at(s, pat, j)
            && forall|k: int| from <= k < j ==> !matches_at(s, pat, k),
        0 <= from ==> (find_from(s, pat, from) is None <==> forall|k: int|
            from <= k ==> !matches_at(s, pat, k)),
    decreases s.len() - from,
{
    if from < 0 || from + pat.len() > s.len() {
    } else if matches_at(s, pat, from) {
    } else if pat.len() == 0 {
        assert(s.subrange(from, from) =~= pat);
    } else {
        lemma_find_from(s, pat, from + 1);
    }
}

/// What `find_char` returns holds `c`, and no earlier index does.
pub proof fn lemma_find_char(s: Seq<char>, c: char, from: int)
    ensures
        find_char(s, c, from) matches Some(j) ==> from <= j < s.len() && s[j] == c && forall|
            k: int,
        |
            from <= k < j ==> s[k] != c,
        0 <= from ==> (find_char(s, c, from) is None <==> forall|k: int|
            from <= k < s.len() ==> s[k] != c),
    decreases s.len() - from,
{
    if from < 0 || from >= s.len() {
    } else if s[from] == c {
    } else {
        lemma_find_char(s, c, from + 1);
    }
}

/// Whether `pat` occurs in `s` at index `i`.
pub fn matches_at_exec(s: &[char], pat: &[char], i: usize) -> (r: bool)
    ensures
        r == matches_at(s@, pat@, i as int),
{
    if i > s.len() || pat.len() > s.len() - i {
        return false;
    }
    let mut k: usize = 0;
    while k < pat.len()
        invariant
            i + pat.len() <= s.len(),
            k <= pat.len(),
            forall|j: int| 0 <= j < k ==> s@[i + j] == pat@[j],
        decreases pat.len() - k,
    {
        if s[i + k] != pat[k] {
            assert(s@.subrange(i as int, i + pat.len())[k as int] != pat@[k as int]);
            return false;
        }
        k += 1;
    }
    assert(s@.subrange(i as int, i + pat.len()) =~= pat@);
    true
}

/// Whether `s` begins with the characters of `pat`.
pub fn starts_with_exec(s: &[char], pat: &str) -> (r: bool)
    ensures
        r == starts_with(s@, pat@),
{
    let p = chars_of(pat);
    matches_at_exec(s, &p, 0)
}

/// Whether `s` ends with the characters of `pat`.
pub fn ends_with_exec(s: &[char], pat: &[char]) -> (r: bool)
    ensures
        r == ends_with(s@, pat@),
{
    if pat.len() > s.len() {
        return false;
    }
    matches_at_exec(s, pat, s.len() - pat.len())
}

/// The first index at or after `from` where `pat` occurs in `s`.
pub fn find_from_exec(s: &[char], pat: &[char], from: usize) -> (r: Option<usize>)
    ensures
        r matches Some(j) ==> find_from(s@, pat@, from as int) == Some(j as int),
        r is None ==> find_from(s@, pat@, from as int) is None,
{
    let mut i = from;
    while i <= s.len() && pat.len() <= s.len() - i
        invariant
            from <= i,
            find_from(s@, pat@, from as int) == find_from(s@, pat@, i as int),
        decreases s.len() + 1 - i,
    {
        if matches_at_exec(s, pat, i) {
            return Some(i);
        }
        if pat.len() == 0 {
            return Some(i);
        }
        i += 1;
    }
    None
}

/// Whether `pat` occurs in `s`.
pub fn contains_exec(s: &[char], pat: &str) -> (r: bool)
    ensures
        r == contains(s@, pat@),
{
    let p = chars_of(pat);
    find_from_exec(s, &p, 0).is_some()
}

/// The first index at or after `from` holding `c`.
pub fn find_char_exec(s: &[char], c: char, from: usize) -> (r: Option<usize>)
    ensures
        r matches Some(j) ==> find_char(s@, c, from as int) == Some(j as int),
        r is None ==> find_char(s@, c, from as int) is None,
{
    let mut i = from;
    while i < s.len()
        invariant
            from <= i,
            find_char(s@, c, from as int) == find_char(s@, c, i as int),
        decreases s.len() - i,
    {
        if s[i] == c {
            return Some(i);
        }
        i += 1;
    }
    None
}

/// Whether `c` occurs in `s`.
pub fn has_char(s: &[char], c: char) -> (r: bool)
    ensures
        r == (find_char(s@, c, 0) is Some),
{
    find_char_exec(s, c, 0).is_some()
}

/// The number of times `c` occurs in `s`.
pub open spec fn count_char(s: Seq<char>, c: char) -> nat
    decreases s.len(),
{
    if s.len() == 0 {
        0
    } else {
        count_char(s.drop_last(), c) + if s.last() == c {
            1nat
        } else {
            0nat
        }
    }
}

/// The number of times `c` occurs in `s`.
pub fn count_char_exec(s: &[char], c: char) -> (n: usize)
    ensures
        n == count_char(s@, c),
{
    let mut n: usize = 0;
    let mut i: usize = 0;
    while i < s.len()
        invariant
            i <= s.len(),
            n == count_char(s@.take(i as int), c),
            n <= i,
        decreases s.len() - i,
    {
        assert(s@.take(i + 1).drop_last() =~= s@.take(i as int));
        if s[i] == c {
            n += 1;
        }
        i += 1;
    }
    assert(s@.take(s.len() as int) =~= s@);
    n
}

// ---------------------------------------------------------------------------
// Replacing
// ---------------------------------------------------------------------------

/// `s` from index `i` on, with every occurrence of the non-empty `pat` replaced by
/// `rep`, scanning left to right without overlap (`str::replace`).
pub open spec fn replace_from(s: Seq<char>, pat: Seq<char>, rep: Seq<char>, i: int) -> Seq<char>
    decreases s.len() - i,
{
    if i < 0 || i >= s.len() || pat.len() == 0 {
        if 0 <= i <= s.len() {
            s.subrange(i, s.len() as int)
        } else {
            Seq::empty()
        }
    } else if matches_at(s, pat, i) {
        rep + replace_from(s, pat, rep, i + pat.len())
    } else {
        seq![s[i]] + replace_from(s, pat, rep, i + 1)
    }
}

/// `str::replace(s, pat, rep)` for a non-empty pattern.
pub open spec fn replace(s: Seq<char>, pat: Seq<char>, rep: Seq<char>) -> Seq<char> {
    replace_from(s, pat, rep, 0)
}

/// Replaces every occurrence of `pat` by `rep` in `s`.
pub fn replace_exec(s: &[char], pat: &str, rep: &str) -> (r: Vec<char>)
    requires
        pat@.len() > 0,
    ensures
        r@ == replace(s@, pat@, rep@),
{
    replace_chars(s, &chars_of(pat), &chars_of(rep))
}

/// Replaces every occurrence of the non-empty `p` by `q` in `s`.
pub fn replace_chars(s: &[char], p: &[char], q: &[char]) -> (r: Vec<char>)
    requires
        p@.len() > 0,
    ensures
        r@ == replace(s@, p@, q@),
{
    let mut out: Vec<char> = Vec::new();
    let mut i: usize = 0;
    while i < s.len()
        invariant
            i <= s.len(),
            p@.len() > 0,
            out@ + replace_from(s@, p@, q@, i as int) == replace_from(s@, p@, q@, 0),
        decreases s.len() - i,
    {
        if matches_at_exec(s, &p, i) {
            proof {
                assert(replace_from(s@, p@, q@, i as int) == q@ + replace_from(
                    s@,
                    p@,
                    q@,
                    i + p@.len(),
                ));
            }
            push_all(&mut out, &q);
            i = i + p.len();
        } else {
            out.push(s[i]);
            i += 1;
        }
    }
    assert(replace_from(s@, p@, q@, i as int) =~= Seq::<char>::empty());
    out
}

// ---------------------------------------------------------------------------
// Trimming
// ---------------------------------------------------------------------------

/// `s` without its leading white space (`str::trim_start`).
pub open spec fn trim_start(s: Seq<char>) -> Seq<char>
    decreases s.len(),
{
    if s.len() > 0 && white_space(s[0]) {
        trim_start(s.drop_first())
    } else {
        s
    }
}

/// `s` without its trailing white space (`str::trim_end`).
pub open spec fn trim_end(s: Seq<char>) -> Seq<char>
    decreases s.len(),
{
    if s.len() > 0 && white_space(s.last()) {
        trim_end(s.drop_last())
    } else {
        s
    }
}

/// `s` without leading and trailing white space (`str::trim`).
pub open spec fn trim(s: Seq<char>) -> Seq<char> {
    trim_end(trim_start(s))
}

/// The number of leading white-space characters of `s`.
pub open spec fn lead_ws(s: Seq<char>) -> int {
    s.len() - trim_start(s).len()
}

proof fn lemma_trim_start_suffix(s: Seq<char>)
    ensures
        trim_start(s) == s.subrange(s.len() - trim_start(s).len(), s.len() as int),
        trim_start(s).len() <= s.len(),
    decreases s.len(),
{
    if s.len() > 0 && white_space(s[0]) {
        lemma_trim_start_suffix(s.drop_first());
        assert(s.drop_first().subrange(
            s.drop_first().len() - trim_start(s.drop_first()).len(),
            s.drop_first().len() as int,
        ) =~= s.subrange(s.len() - trim_start(s).len(), s.len() as int));
    } else {
        assert(s.subrange(0, s.len() as int) =~= s);
    }
}

proof fn lemma_trim_end_prefix(s: Seq<char>)
    ensures
        trim_end(s) == s.subrange(0, trim_end(s).len() as int),
        trim_end(s).len() <= s.len(),
    decreases s.len(),
{
    if s.len() > 0 && white_space(s.last()) {
        lemma_trim_end_prefix(s.drop_last());
        assert(s.drop_last().subrange(0, trim_end(s.drop_last()).len() as int) =~= s.subrange(
            0,
            trim_end(s).len() as int,
        ));
    } else {
        assert(s.subrange(0, s.len() as int) =~= s);
    }
}

proof fn lemma_trim_start_step(s: Seq<char>, i: int)
    requires
        0 <= i < s.len(),
        forall|k: int| 0 <= k < i ==> white_space(s[k]),
    ensures
        white_space(s[i]) ==> trim_start(s.subrange(i + 1, s.len() as int)) == trim_start(s),
        !white_space(s[i]) ==> trim_start(s) == s.subrange(i, s.len() as int),
    decreases i,
{
    if i == 0 {
        if white_space(s[0]) {
            assert(s.drop_first() =~= s.subrange(1, s.len() as int));
        }
        assert(s.subrange(0, s.len() as int) =~= s);
    } else {
        lemma_trim_start_step(s.drop_first(), i - 1);
        assert(s.drop_first().subrange(i, s.drop_first().len() as int) =~= s.subrange(
            i + 1,
            s.len() as int,
        ));
        assert(s.drop_first().subrange(i - 1, s.drop_first().len() as int) =~= s.subrange(
            i,
            s.len() as int,
        ));
    }
}

proof fn lemma_trim_end_step(s: Seq<char>, j: int)
    requires
        0 < j <= s.len(),
        forall|k: int| j <= k < s.len() ==> white_space(s[k]),
    ensures
        white_space(s[j - 1]) ==> trim_end(s.subrange(0, j - 1)) == trim_end(s),
        !white_space(s[j - 1]) ==> trim_end(s) == s.subrange(0, j),
    decreases s.len() - j,
{
    if j == s.len() {
        if white_space(s[j - 1]) {
            assert(s.drop_last() =~= s.subrange(0, j - 1));
        }
        assert(s.subrange(0, s.len() as int) =~= s);
    } else {
        lemma_trim_end_step(s.drop_last(), j);
        assert(s.drop_last().subrange(0, j - 1) =~= s.subrange(0, j - 1));
        assert(s.drop_last().subrange(0, j) =~= s.subrange(0, j));
    }
}

/// Trimming never lengthens a text.
pub proof fn lemma_trim_len(s: Seq<char>)
    ensures
        trim(s).len() <= s.len(),
{
    lemma_trim_start_suffix(s);
    lemma_trim_end_prefix(trim_start(s));
}

/// The bounds `(a, b)` such that `trim(s) == s[a..b]`.
pub fn trim_bounds(s: &[char]) -> (r: (usize, usize))
    ensures
        r.0 <= r.1 <= s.len(),
        trim(s@) == s@.subrange(r.0 as int, r.1 as int),
        trim_start(s@) == s@.subrange(r.0 as int, s.len() as int),
        trim_end(s@) == s@.subrange(0, r.1 as int) || r.0 == r.1,
{
    let mut a: usize = 0;
    assert(s@.subrange(0, s.len() as int) =~= s@);
    while a < s.len()
        invariant
            a <= s.len(),
            forall|k: int| 0 <= k < a ==> white_space(s@[k]),
            trim_start(s@) == trim_start(s@.subrange(a as int, s.len() as int)),
        ensures
            a <= s.len(),
            forall|k: int| 0 <= k < a ==> white_space(s@[k]),
            trim_start(s@) == trim_start(s@.subrange(a as int, s.len() as int)),
            a < s.len() ==> !white_space(s@[a as int]),
        decreases s.len() - a,
    {
        if !is_white_space(s[a]) {
            break;
        }
        proof {
            lemma_trim_start_step(s@, a as int);
        }
        a += 1;
    }
    proof {
        if a < s.len() {
            lemma_trim_start_step(s@, a as int);
        } else {
            assert(s@.subrange(a as int, s.len() as int) =~= Seq::<char>::empty());
        }
        assert(trim_start(s@) == s@.subrange(a as int, s.len() as int));
    }
    let ghost t = s@.subrange(a as int, s.len() as int);
    let mut b: usize = s.len();
    assert(t =~= s@.subrange(a as int, s.len() as int));
    while b > a
        invariant
            a <= b <= s.len(),
            t == s@.subrange(a as int, s.len() as int),
            forall|k: int| b <= k < s.len() ==> white_space(s@[k]),
            trim_end(t) == trim_end(s@.subrange(a as int, b as int)),
        ensures
            a <= b <= s.len(),
            forall|k: int| b <= k < s.len() ==> white_space(s@[k]),
            trim_end(t) == trim_end(s@.subrange(a as int, b as int)),
            b > a ==> !white_space(s@[b - 1]),
        decreases b,
    {
        if !is_white_space(s[b - 1]) {
            break;
        }
        proof {
            let u = s@.subrange(a as int, b as int);
            lemma_trim_end_step(u, u.len() as int);
            assert(u.subrange(0, u.len() - 1) =~= s@.subrange(a as int, b - 1));
        }
        b -= 1;
    }
    proof {
        let u = s@.subrange(a as int, b as int);
        if b > a {
            lemma_trim_end_step(u, u.len() as int);
            assert(u.subrange(0, u.len() as int) =~= u);
        } else {
            assert(u =~= Seq::<char>::empty());
        }
        assert(trim_end(t) == u);
        // the end bound seen from the whole of `s`
        if a < b {
            assert(!white_space(s@[b - 1]));
            lemma_trim_end_step(s@.subrange(0, b as int), b as int);
            lemma_trim_end_rest(s@, b as int);
        }
    }
    (a, b)
}

proof fn lemma_trim_end_rest(s: Seq<char>, b: int)
    requires
        0 < b <= s.len(),
        !white_space(s[b - 1]),
        forall|k: int| b <= k < s.len() ==> white_space(s[k]),
    ensures
        trim_end(s) == s.subrange(0, b),
    decreases s.len() - b,
{
    if b == s.len() {
        assert(s.subrange(0, b) =~= s);
    } else {
        lemma_trim_end_rest(s.drop_last(), b);
        assert(s.drop_last().subrange(0, b) =~= s.subrange(0, b));
    }
}

/// `s` without leading and trailing white space.
pub fn trim_exec(s: &[char]) -> (r: Vec<char>)
    ensures
        r@ == trim(s@),
{
    let (a, b) = trim_bounds(s);
    slice_chars(s, a, b)
}

/// Whether `s` is empty after trimming (`s.trim().is_empty()`).
pub fn is_blank(s: &[char]) -> (r: bool)
    ensures
        r == (trim(s@).len() == 0),
{
    let (a, b) = trim_bounds(s);
    a == b
}

// ---------------------------------------------------------------------------
// Lines
// ---------------------------------------------------------------------------

/// A line as `str::lines` yields it: a trailing carriage return is dropped.
pub open spec fn strip_cr(x: Seq<char>) -> Seq<char> {
    if x.len() > 0 && x.last() == '\r' {
        x.drop_last()
    } else {
        x
    }
}

/// The lines of `s` from index `i` on (`str::lines`): split at `'\n'`, a
/// `"\r\n"` ending counts as one, and a final line ending adds no empty line.
pub open spec fn lines_from(s: Seq<char>, i: int) -> Seq<Seq<char>>
    decreases s.len() - i,
{
    if i < 0 || i >= s.len() {
        Seq::empty()
    } else {
        match find_char(s, '\n', i) {
            Some(j) => if i <= j < s.len() {
                seq![strip_cr(s.subrange(i, j))] + lines_from(s, j + 1)
            } else {
                Seq::empty()
            },
            None => seq![s.subrange(i, s.len() as int)],
        }
    }
}

/// The lines of `s` (`str::lines`).
pub open spec fn lines(s: Seq<char>) -> Seq<Seq<char>> {
    lines_from(s, 0)
}

/// The views of a vector of character vectors.
pub open spec fn views(v: Seq<Vec<char>>) -> Seq<Seq<char>> {
    v.map_values(|x: Vec<char>| x@)
}

/// Splits `s` into lines as `str::lines` does.
pub fn lines_exec(s: &[char]) -> (r: Vec<Vec<char>>)
    ensures
        views(r@) == lines(s@),
{
    let mut out: Vec<Vec<char>> = Vec::new();
    let mut i: usize = 0;
    while i < s.len()
        invariant
            i <= s.len(),
            views(out@) + lines_from(s@, i as int) == lines_from(s@, 0),
        decreases s.len() - i,
    {
        match find_char_exec(s, '\n', i) {
            Some(j) => {
                proof {
                    lemma_find_char(s@, '\n', i as int);
                }
                let mut line = slice_chars(s, i, j);
                if line.len() > 0 && line[line.len() - 1] == '\r' {
                    line.pop();
                }
                assert(line@ == strip_cr(s@.subrange(i as int, j as int)));
                let ghost before = out@;
                out.push(line);
                assert(views(out@) =~= views(before).push(line@));
                assert(views(before).push(line@) + lines_from(s@, j + 1) =~= views(before) + (
                seq![line@] + lines_from(s@, j + 1)));
                i = j + 1;
            },
            None => {
                let line = slice_chars(s, i, s.len());
                let ghost before = out@;
                out.push(line);
                assert(views(out@) =~= views(before).push(line@));
                assert(lines_from(s@, s.len() as int) =~= Seq::<Seq<char>>::empty());
                assert(views(before).push(line@) =~= views(before) + seq![line@]);
                i = s.len();
            },
        }
    }
    assert(lines_from(s@, i as int) =~= Seq::<Seq<char>>::empty());
    assert(views(out@) + Seq::<Seq<char>>::empty() =~= views(out@));
    out
}

// ---------------------------------------------------------------------------
// Numbers
// ---------------------------------------------------------------------------

/// The decimal digit character for `d < 10`.
pub open spec fn digit_char(d: nat) -> char {
    if d == 0 {
        '0'
    } else if d == 1 {
        '1'
    } else if d == 2 {
        '2'
    } else if d == 3 {
        '3'
    } else if d == 4 {
        '4'
    } else if d == 5 {
        '5'
    } else if d == 6 {
        '6'
    } else if d == 7 {
        '7'
    } else if d == 8 {
        '8'
    } else {
        '9'
    }
}

/// The decimal numeral of `n`, as `u64`'s `Display` writes it.
pub open spec fn decimal(n: nat) -> Seq<char>
    decreases n,
{
    if n < 10 {
        seq![digit_char(n)]
    } else {
        decimal(n / 10).push(digit_char(n % 10))
    }
}

fn digit_char_exec(d: u64) -> (c: char)
    requires
        d < 10,
    ensures
        c == digit_char(d as nat),
{
    if d == 0 {
        '0'
    } else if d == 1 {
        '1'
    } else if d == 2 {
        '2'
    } else if d == 3 {
        '3'
    } else if d == 4 {
        '4'
    } else if d == 5 {
        '5'
    } else if d == 6 {
        '6'
    } else if d == 7 {
        '7'
    } else if d == 8 {
        '8'
    } else {
        '9'
    }
}

/// The decimal numeral of `n`.
pub fn decimal_exec(n: u64) -> (v: Vec<char>)
    ensures
        v@ == decimal(n as nat),
    decreases n,
{
    if n < 10 {
        let mut v = Vec::new();
        v.push(digit_char_exec(n));
        v
    } else {
        let mut v = decimal_exec(n / 10);
        v.push(digit_char_exec(n % 10));
        v
    }
}

/// The decimal numeral of a 128-bit `n`.
pub fn decimal_exec_wide(n: u128) -> (v: Vec<char>)
    ensures
        v@ == decimal(n as nat),
    decreases n,
{
    if n < 10 {
        let mut v = Vec::new();
        v.push(digit_char_exec(n as u64));
        v
    } else {
        let mut v = decimal_exec_wide(n / 10);
        v.push(digit_char_exec((n % 10) as u64));
        v
    }
}

/// Appends the decimal numeral of `n` to `v`.
pub fn push_decimal(v: &mut Vec<char>, n: u64)
    ensures
        final(v)@ == old(v)@ + decimal(n as nat),
{
    let d = decimal_exec(n);
    push_all(v, &d);
}

// ---------------------------------------------------------------------------
// Joining
// ---------------------------------------------------------------------------

/// The pieces of `parts` joined with `sep` between them (`[..].join(sep)`).
pub open spec fn join(parts: Seq<Seq<char>>, sep: Seq<char>) -> Seq<char>
    decreases parts.len(),
{
    if parts.len() == 0 {
        Seq::empty()
    } else if parts.len() == 1 {
        parts[0]
    } else {
        join(parts.drop_last(), sep) + sep + parts.last()
    }
}

/// The concatenation of all pieces of `parts`.
pub open spec fn concat(parts: Seq<Seq<char>>) -> Seq<char>
    decreases parts.len(),
{
    if parts.len() == 0 {
        Seq::empty()
    } else {
        concat(parts.drop_last()) + parts.last()
    }
}

/// Joins the character vectors in `parts` with `sep` between them.
pub fn join_exec(parts: &Vec<Vec<char>>, sep: &[char]) -> (r: Vec<char>)
    ensures
        r@ == join(views(parts@), sep@),
{
    let mut out: Vec<char> = Vec::new();
    let mut i: usize = 0;
    while i < parts.len()
        invariant
            i <= parts.len(),
            out@ == join(views(parts@).take(i as int), sep@),
        decreases parts.len() - i,
    {
        proof {
            assert(views(parts@).take(i + 1).drop_last() =~= views(parts@).take(i as int));
        }
        if i > 0 {
            push_all(&mut out, sep);
        }
        push_all(&mut out, &parts[i]);
        proof {
            if i == 0 {
                assert(out@ =~= views(parts@).take(1)[0]);
            }
        }
        i += 1;
    }
    assert(views(parts@).take(parts.len() as int) =~= views(parts@));
    out
}

/// Concatenates the character vectors in `parts`.
pub fn concat_exec(parts: &Vec<Vec<char>>) -> (r: Vec<char>)
    ensures
        r@ == concat(views(parts@)),
{
    let mut out: Vec<char> = Vec::new();
    let mut i: usize = 0;
    while i < parts.len()
        invariant
            i <= parts.len(),
            out@ == concat(views(parts@).take(i as int)),
        decreases parts.len() - i,
    {
        assert(views(parts@).take(i + 1).drop_last() =~= views(parts@).take(i as int));
        push_all(&mut out, &parts[i]);
        i += 1;
    }
    assert(views(parts@).take(parts.len() as int) =~= views(parts@));
    out
}

} // verus!

verus! {

// ---------------------------------------------------------------------------
// Words and line accumulation
// ---------------------------------------------------------------------------

/// The white-space separated words of `s` from index `i` on (`str::split_whitespace`).
pub open spec fn words_from(s: Seq<char>, i: int) -> Seq<Seq<char>>
    decreases s.len() - i, 1int,
{
    if i < 0 || i >= s.len() {
        Seq::empty()
    } else if white_space(s[i]) {
        words_from(s, i + 1)
    } else {
        let e = word_run_end(s, i);
        if i < e <= s.len() {
            seq![s.subrange(i, e)] + words_from(s, e)
        } else {
            Seq::empty()
        }
    }
}

/// The end of the run of non-white-space characters from `i`.
pub open spec fn word_run_end(s: Seq<char>, i: int) -> int
    decreases s.len() - i,
{
    if i < 0 || i >= s.len() || white_space(s[i]) {
        i
    } else {
        word_run_end(s, i + 1)
    }
}

/// The white-space separated words of `s`.
pub open spec fn words(s: Seq<char>) -> Seq<Seq<char>> {
    words_from(s, 0)
}

proof fn lemma_word_run_end(s: Seq<char>, i: int)
    ensures
        0 <= i <= s.len() ==> i <= word_run_end(s, i) <= s.len(),
        0 <= i < s.len() && !white_space(s[i]) ==> word_run_end(s, i) > i,
    decreases s.len() - i,
{
    if i < 0 || i >= s.len() || white_space(s[i]) {
    } else {
        lemma_word_run_end(s, i + 1);
    }
}

/// The white-space separated words of `s`.
pub fn words_exec(s: &[char]) -> (r: Vec<Vec<char>>)
    ensures
        views(r@) == words(s@),
{
    let mut out: Vec<Vec<char>> = Vec::new();
    let mut i: usize = 0;
    while i < s.len()
        invariant
            i <= s.len(),
            views(out@) + words_from(s@, i as int) == words(s@),
        decreases s.len() - i,
    {
        if is_white_space(s[i]) {
            i += 1;
        } else {
            let mut e = i;
            while e < s.len() && !is_white_space(s[e])
                invariant
                    i <= e <= s.len(),
                    word_run_end(s@, i as int) == word_run_end(s@, e as int),
                decreases s.len() - e,
            {
                e += 1;
            }
            proof {
                lemma_word_run_end(s@, i as int);
            }
            let w = slice_chars(s, i, e);
            let ghost before = out@;
            out.push(w);
            assert(views(out@) =~= views(before).push(w@));
            assert(views(before) + (seq![w@] + words_from(s@, e as int)) =~= views(out@)
                + words_from(s@, e as int));
            i = e;
        }
    }
    assert(words_from(s@, i as int) =~= Seq::<Seq<char>>::empty());
    assert(views(out@) + Seq::<Seq<char>>::empty() =~= views(out@));
    out
}

/// `acc` with `line` appended, separated by a line break unless `acc` is empty.
pub open spec fn append_line(acc: Seq<char>, line: Seq<char>) -> Seq<char> {
    if acc.len() == 0 {
        line
    } else {
        acc.push('\n') + line
    }
}

/// Appends `line` to `acc`, with a line break before it unless `acc` is empty.
pub fn append_line_exec(acc: &mut Vec<char>, line: &[char])
    ensures
        final(acc)@ == append_line(old(acc)@, line@),
{
    if acc.len() > 0 {
        acc.push('\n');
    }
    push_all(acc, line);
    assert(old(acc)@.len() == 0 ==> Seq::<char>::empty() + line@ =~= line@);
}

/// The prefix of `s` before the first occurrence of `pat`, or all of `s`
/// (`s.split(pat).next()`).
pub open spec fn before_first(s: Seq<char>, pat: Seq<char>) -> Seq<char> {
    match find_from(s, pat, 0) {
        Some(j) => s.subrange(0, j),
        None => s,
    }
}

/// The part of `s` after the first occurrence of `pat`, if `pat` occurs.
pub open spec fn after_first(s: Seq<char>, pat: Seq<char>) -> Option<Seq<char>> {
    match find_from(s, pat, 0) {
        Some(j) => Some(s.subrange(j + pat.len(), s.len() as int)),
        None => None,
    }
}

proof fn lemma_find_from_in(s: Seq<char>, pat: Seq<char>, from: int)
    ensures
        find_from(s, pat, from) matches Some(j) ==> from <= j && j + pat.len() <= s.len(),
    decreases s.len() - from,
{
    if from < 0 || from + pat.len() > s.len() {
    } else if matches_at(s, pat, from) {
    } else if pat.len() == 0 {
    } else {
        lemma_find_from_in(s, pat, from + 1);
    }
}

/// The prefix of `s` before the first occurrence of `pat`, or all of `s`.
pub fn before_first_exec(s: &[char], pat: &str) -> (r: Vec<char>)
    ensures
        r@ == before_first(s@, pat@),
{
    let p = chars_of(pat);
    match find_from_exec(s, &p, 0) {
        Some(j) => {
            proof {
                lemma_find_from_in(s@, p@, 0);
            }
            slice_chars(s, 0, j)
        },
        None => copy_chars(s),
    }
}

/// The part of `s` after the first occurrence of `pat`, if `pat` occurs.
pub fn after_first_exec(s: &[char], pat: &str) -> (r: Option<Vec<char>>)
    ensures
        r matches Some(v) ==> after_first(s@, pat@) == Some(v@),
        r is None ==> after_first(s@, pat@) is None,
{
    let p = chars_of(pat);
    match find_from_exec(s, &p, 0) {
        Some(j) => {
            proof {
                lemma_find_from_in(s@, p@, 0);
            }
            let n = p.len();
            assert(j + n <= s.len());
            Some(slice_chars(s, j + n, s.len()))
        },
        None => None,
    }
}

} // verus!

verus! {

// ---------------------------------------------------------------------------
// Character classes and runs
// ---------------------------------------------------------------------------

/// Simple character classes used by the line grammars.
pub enum CharClass {
    /// `[A-Za-z]`
    AsciiLetter,
    /// `[a-z]`
    AsciiLower,
    /// `\d` (Unicode decimal digit)
    Digit,
    /// `[0-9]`
    AsciiDigit,
}

/// Whether `c` belongs to the class `k`.
pub open spec fn in_class(k: CharClass, c: char) -> bool {
    match k {
        CharClass::AsciiLetter => ('a' <= c && c <= 'z') || ('A' <= c && c <= 'Z'),
        CharClass::AsciiLower => 'a' <= c && c <= 'z',
        CharClass::Digit => regex_digit(c),
        CharClass::AsciiDigit => '0' <= c && c <= '9',
    }
}

/// The end of the run of class-`k` characters starting at `from`.
pub open spec fn run_end(s: Seq<char>, from: int, k: CharClass) -> int
    decreases s.len() - from,
{
    if from < 0 || from >= s.len() || !in_class(k, s[from]) {
        from
    } else {
        run_end(s, from + 1, k)
    }
}

/// Whether `c` belongs to the class `k`.
pub fn in_class_exec(k: &CharClass, c: char) -> (r: bool)
    ensures
        r == in_class(*k, c),
{
    match k {
        CharClass::AsciiLetter => ('a' <= c && c <= 'z') || ('A' <= c && c <= 'Z'),
        CharClass::AsciiLower => 'a' <= c && c <= 'z',
        CharClass::Digit => is_regex_digit(c),
        CharClass::AsciiDigit => '0' <= c && c <= '9',
    }
}

/// The end of the run of class-`k` characters starting at `from`.
pub fn run_end_exec(s: &[char], from: usize, k: &CharClass) -> (r: usize)
    requires
        from <= s.len(),
    ensures
        r == run_end(s@, from as int, *k),
        from <= r <= s.len(),
{
    let mut i = from;
    while i < s.len()
        invariant
            from <= i <= s.len(),
            run_end(s@, from as int, *k) == run_end(s@, i as int, *k),
        decreases s.len() - i,
    {
        if !in_class_exec(k, s[i]) {
            return i;
        }
        i += 1;
    }
    i
}

/// Every character of a run belongs to its class.
pub proof fn lemma_run_end_in_class(s: Seq<char>, from: int, k: CharClass)
    requires
        0 <= from <= s.len(),
    ensures
        from <= run_end(s, from, k) <= s.len(),
        forall|i: int| from <= i < run_end(s, from, k) ==> in_class(k, #[trigger] s[i]),
    decreases s.len() - from,
{
    if from < s.len() && in_class(k, s[from]) {
        lemma_run_end_in_class(s, from + 1, k);
    }
}

/// The last index `m` with `lo <= m` and `m + pat.len() <= hi` where `pat` occurs.
pub open spec fn last_match(s: Seq<char>, pat: Seq<char>, lo: int, hi: int) -> Option<int>
    decreases hi - lo,
{
    if hi - pat.len() < lo || hi > s.len() {
        None
    } else if pat.len() == 0 {
        Some(hi)
    } else if matches_at(s, pat, hi - pat.len()) {
        Some(hi - pat.len())
    } else {
        last_match(s, pat, lo, hi - 1)
    }
}

/// The last index `m` with `lo <= m` and `m + pat.len() <= hi` where `pat` occurs.
pub fn last_match_exec(s: &[char], pat: &[char], lo: usize, hi: usize) -> (r: Option<usize>)
    requires
        hi <= s.len(),
    ensures
        r matches Some(m) ==> last_match(s@, pat@, lo as int, hi as int) == Some(m as int) && lo <= m
            && m + pat.len() <= hi,
        r is None ==> last_match(s@, pat@, lo as int, hi as int) is None,
{
    let mut h = hi;
    while h >= pat.len() && h - pat.len() >= lo
        invariant
            h <= hi <= s.len(),
            last_match(s@, pat@, lo as int, hi as int) == last_match(s@, pat@, lo as int, h as int),
        decreases h,
    {
        if pat.len() == 0 {
            return Some(h);
        }
        if matches_at_exec(s, pat, h - pat.len()) {
            return Some(h - pat.len());
        }
        h -= 1;
    }
    None
}

/// `s` with trailing copies of `pat` removed, as many as there are (`trim_end_matches`).
pub open spec fn trim_end_matches(s: Seq<char>, pat: Seq<char>) -> Seq<char>
    decreases s.len(),
{
    if pat.len() > 0 && s.len() >= pat.len() && ends_with(s, pat) {
        trim_end_matches(s.subrange(0, s.len() - pat.len()), pat)
    } else {
        s
    }
}

/// `s` with trailing copies of `pat` removed.
pub fn trim_end_matches_exec(s: &[char], pat: &[char]) -> (r: Vec<char>)
    ensures
        r@ == trim_end_matches(s@, pat@),
{
    let mut n = s.len();
    assert(s@.subrange(0, n as int) =~= s@);
    while pat.len() > 0 && n >= pat.len() && matches_at_exec(s, pat, n - pat.len())
        invariant
            n <= s.len(),
            trim_end_matches(s@, pat@) == trim_end_matches(s@.subrange(0, n as int), pat@),
        decreases n,
    {
        proof {
            let t = s@.subrange(0, n as int);
            assert(t.subrange(t.len() - pat@.len(), t.len() as int) =~= s@.subrange(
                n - pat@.len(),
                n as int,
            ));
            assert(t.subrange(0, t.len() - pat@.len()) =~= s@.subrange(0, n - pat@.len()));
        }
        n = n - pat.len();
    }
    proof {
        let t = s@.subrange(0, n as int);
        if pat@.len() > 0 && n >= pat@.len() {
            assert(t.subrange(t.len() - pat@.len(), t.len() as int) =~= s@.subrange(
                n - pat@.len(),
                n as int,
            ));
        }
    }
    slice_chars(s, 0, n)
}

} // verus!
