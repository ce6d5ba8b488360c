//! Reusing translations: mechanical fixes for small German edits, the skip list, and
//! reuse of translations from a translated sibling document.
use vstd::prelude::*;
use crate::markup::{subst_all, subst_all_exec, Pat};
use crate::text::{
    alphabetic, chars_eq, chars_of, copy_chars, ends_with, is_alphabetic, lines, lines_exec,
    push_all, push_str, replace, replace_exec, slice_chars, starts_with, string_of, trim,
    trim_end, trim_exec, views, join, join_exec, str_lowercase, alphanumeric, is_alphanumeric,
};
use crate::translate::common::{
    parse_document, remark_views, spec_parse_document, string_views, Remark,
};

verus! {

// ---------------------------------------------------------------------------
// Mechanical fixes
// ---------------------------------------------------------------------------

/// The length of the longest common suffix of `a` and `b`.
pub open spec fn common_suffix_len(a: Seq<char>, b: Seq<char>) -> nat
    decreases a.len(),
{
    if a.len() > 0 && b.len() > 0 && a.last() == b.last() {
        common_suffix_len(a.drop_last(), b.drop_last()) + 1
    } else {
        0
    }
}

/// The length of the longest common prefix of `a` and `b`.
pub open spec fn common_prefix_len(a: Seq<char>, b: Seq<char>) -> nat
    decreases a.len(),
{
    if a.len() > 0 && b.len() > 0 && a[0] == b[0] {
        common_prefix_len(a.drop_first(), b.drop_first()) + 1
    } else {
        0
    }
}

/// Whether `s` has no alphabetic character outside HTML tags (`<` opens a tag, `>`
/// closes it), scanning with the tag state `in_tag`.
pub open spec fn non_word_from(s: Seq<char>, in_tag: bool) -> bool
    decreases s.len(),
{
    if s.len() == 0 {
        true
    } else {
        let c = s[0];
        if c == '<' {
            non_word_from(s.drop_first(), true)
        } else if c == '>' {
            non_word_from(s.drop_first(), false)
        } else if !in_tag && alphabetic(c) {
            false
        } else {
            non_word_from(s.drop_first(), in_tag)
        }
    }
}

/// Whether `s` has no alphabetic character outside HTML tags.
pub open spec fn is_non_word(s: Seq<char>) -> bool {
    non_word_from(s, false)
}

/// The English body updated for a German edit that only touched non-word text at the
/// start or at the end of the remark; `None` if the edit needs a new translation.
/// The common suffix and prefix are taken in characters, which is what the byte-wise
/// comparison cut back to a character boundary gives.
pub open spec fn spec_try_auto_fix_remark(old_de: Seq<char>, new_de: Seq<char>, old_en: Seq<char>) -> Option<
    Seq<char>,
> {
    if old_de == new_de {
        None
    } else {
        let t = common_suffix_len(old_de, new_de);
        let by_head = if t > 0 {
            let oh = old_de.subrange(0, old_de.len() - t);
            let nh = new_de.subrange(0, new_de.len() - t);
            if is_non_word(oh) && is_non_word(nh) {
                if starts_with(old_en, oh) {
                    Some(nh + old_en.subrange(oh.len() as int, old_en.len() as int))
                } else if nh.len() == 0 || starts_with(old_en, nh) || starts_with(
                    old_en,
                    trim_end(nh),
                ) {
                    Some(old_en)
                } else {
                    None
                }
            } else {
                None
            }
        } else {
            None
        };
        if by_head is Some {
            by_head
        } else {
            let p = common_prefix_len(old_de, new_de);
            if p > 0 {
                let ot = old_de.subrange(p as int, old_de.len() as int);
                let nt = new_de.subrange(p as int, new_de.len() as int);
                if is_non_word(ot) && is_non_word(nt) && ends_with(old_en, ot) {
                    Some(old_en.subrange(0, old_en.len() - ot.len()) + nt)
                } else {
                    None
                }
            } else {
                None
            }
        }
    }
}

fn common_suffix_len_exec(a: &[char], b: &[char]) -> (n: usize)
    ensures
        n == common_suffix_len(a@, b@),
        n <= a.len() && n <= b.len(),
{
    let mut n: usize = 0;
    assert(a@.subrange(0, a.len() as int) =~= a@);
    assert(b@.subrange(0, b.len() as int) =~= b@);
    while n < a.len() && n < b.len() && a[a.len() - 1 - n] == b[b.len() - 1 - n]
        invariant
            n <= a.len() && n <= b.len(),
            common_suffix_len(a@, b@) == n + common_suffix_len(
                a@.subrange(0, a.len() - n),
                b@.subrange(0, b.len() - n),
            ),
        decreases a.len() - n,
    {
        proof {
            let x = a@.subrange(0, a.len() - n);
            let y = b@.subrange(0, b.len() - n);
            assert(x.drop_last() =~= a@.subrange(0, a.len() - n - 1));
            assert(y.drop_last() =~= b@.subrange(0, b.len() - n - 1));
        }
        n += 1;
    }
    proof {
        let x = a@.subrange(0, a.len() - n);
        let y = b@.subrange(0, b.len() - n);
        if x.len() > 0 && y.len() > 0 {
            assert(x.last() == a@[a.len() - 1 - n]);
            assert(y.last() == b@[b.len() - 1 - n]);
        }
    }
    n
}

fn common_prefix_len_exec(a: &[char], b: &[char]) -> (n: usize)
    ensures
        n == common_prefix_len(a@, b@),
        n <= a.len() && n <= b.len(),
{
    let mut n: usize = 0;
    assert(a@.subrange(0, a.len() as int) =~= a@);
    assert(b@.subrange(0, b.len() as int) =~= b@);
    while n < a.len() && n < b.len() && a[n] == b[n]
        invariant
            n <= a.len() && n <= b.len(),
            common_prefix_len(a@, b@) == n + common_prefix_len(
                a@.subrange(n as int, a.len() as int),
                b@.subrange(n as int, b.len() as int),
            ),
        decreases a.len() - n,
    {
        proof {
            let x = a@.subrange(n as int, a.len() as int);
            let y = b@.subrange(n as int, b.len() as int);
            assert(x.drop_first() =~= a@.subrange(n + 1, a.len() as int));
            assert(y.drop_first() =~= b@.subrange(n + 1, b.len() as int));
        }
        n += 1;
    }
    n
}

fn is_non_word_exec(s: &[char]) -> (r: bool)
    ensures
        r == is_non_word(s@),
{
    let mut in_tag = false;
    let mut i: usize = 0;
    assert(s@.subrange(0, s.len() as int) =~= s@);
    while i < s.len()
        invariant
            i <= s.len(),
            is_non_word(s@) == non_word_from(s@.subrange(i as int, s.len() as int), in_tag),
        decreases s.len() - i,
    {
        proof {
            assert(s@.subrange(i as int, s.len() as int).drop_first() =~= s@.subrange(
                i + 1,
                s.len() as int,
            ));
        }
        let c = s[i];
        if c == '<' {
            in_tag = true;
        } else if c == '>' {
            in_tag = false;
        } else if !in_tag && is_alphabetic(c) {
            return false;
        }
        i += 1;
    }
    true
}

/// Try to auto-fix a translation when only non-word prefixes or suffixes changed
/// between the old and new German text. If the English translation uses the same
/// prefix/suffix as the old German, substitute the new one. Returns the updated English
/// body, or `None` if the change requires retranslation.
pub fn try_auto_fix_remark(old_de: &str, new_de: &str, old_en: &str) -> (r: Option<String>)
    ensures
        r matches Some(x) ==> spec_try_auto_fix_remark(old_de@, new_de@, old_en@) == Some(x@),
        r is None ==> spec_try_auto_fix_remark(old_de@, new_de@, old_en@) is None,
{
    let od = chars_of(old_de);
    let nd = chars_of(new_de);
    let oe = chars_of(old_en);
    if chars_eq(&od, &nd) {
        return None;
    }
    let t = common_suffix_len_exec(&od, &nd);
    if t > 0 {
        let oh = slice_chars(&od, 0, od.len() - t);
        let nh = slice_chars(&nd, 0, nd.len() - t);
        if is_non_word_exec(&oh) && is_non_word_exec(&nh) {
            if crate::text::matches_at_exec(&oe, &oh, 0) {
                let mut r = copy_chars(&nh);
                let tail = slice_chars(&oe, oh.len(), oe.len());
                push_all(&mut r, &tail);
                return Some(string_of(&r));
            }
            let nh_trim = trim_end_exec(&nh);
            if nh.len() == 0 || crate::text::matches_at_exec(&oe, &nh, 0)
                || crate::text::matches_at_exec(&oe, &nh_trim, 0) {
                return Some(string_of(&oe));
            }
        }
    }
    let p = common_prefix_len_exec(&od, &nd);
    if p > 0 {
        let ot = slice_chars(&od, p, od.len());
        let nt = slice_chars(&nd, p, nd.len());
        if is_non_word_exec(&ot) && is_non_word_exec(&nt) && crate::text::ends_with_exec(&oe, &ot) {
            let mut r = slice_chars(&oe, 0, oe.len() - ot.len());
            push_all(&mut r, &nt);
            return Some(string_of(&r));
        }
    }
    None
}

/// `s` without its trailing white space.
pub fn trim_end_exec(s: &[char]) -> (r: Vec<char>)
    ensures
        r@ == trim_end(s@),
{
    let mut n = s.len();
    assert(s@.subrange(0, n as int) =~= s@);
    while n > 0 && crate::text::is_white_space(s[n - 1])
        invariant
            n <= s.len(),
            trim_end(s@) == trim_end(s@.subrange(0, n as int)),
        decreases n,
    {
        proof {
            let t = s@.subrange(0, n as int);
            assert(t.drop_last() =~= s@.subrange(0, n - 1));
        }
        n -= 1;
    }
    proof {
        let t = s@.subrange(0, n as int);
        if n > 0 {
            assert(t.last() == s@[n - 1]);
        }
    }
    slice_chars(s, 0, n)
}

// ---------------------------------------------------------------------------
// Skip list
// ---------------------------------------------------------------------------

/// The entries of a skip list: trimmed lines that are neither empty nor comments.
pub open spec fn skip_entries(ls: Seq<Seq<char>>) -> Seq<Seq<char>>
    decreases ls.len(),
{
    if ls.len() == 0 {
        Seq::empty()
    } else {
        let rest = skip_entries(ls.drop_last());
        let t = trim(ls.last());
        if t.len() > 0 && !starts_with(t, "#"@) {
            rest.push(t)
        } else {
            rest
        }
    }
}

/// Parse a skip list (one `filename:remark_id` per line; `#` comments and blank lines
/// are ignored).
pub fn parse_skip_list(content: &str) -> (r: Vec<String>)
    ensures
        string_views(r@) == skip_entries(lines(content@)),
{
    let text = chars_of(content);
    let ls = lines_exec(&text);
    let mut out: Vec<String> = Vec::new();
    let mut i: usize = 0;
    while i < ls.len()
        invariant
            i <= ls.len(),
            views(ls@) == lines(content@),
            string_views(out@) == skip_entries(views(ls@).take(i as int)),
        decreases ls.len() - i,
    {
        proof {
            assert(views(ls@).take(i + 1).drop_last() =~= views(ls@).take(i as int));
            assert(views(ls@).take(i + 1).last() == ls@[i as int]@);
        }
        let t = trim_exec(&ls[i]);
        if t.len() > 0 && !crate::text::starts_with_exec(&t, "#") {
            let ghost before = out@;
            out.push(string_of(&t));
            assert(string_views(out@) =~= string_views(before).push(t@));
        }
        i += 1;
    }
    assert(views(ls@).take(ls.len() as int) =~= views(ls@));
    out
}

/// Parse an ignore-words list: the entries of the list (as for a skip list), each
/// lowercased.
pub fn parse_ignore_words(content: &str) -> (r: Vec<String>)
    ensures
        string_views(r@) == skip_entries(lines(content@)).map_values(|w: Seq<char>| crate::text::str_lowercase(w)),
{
    let entries = parse_skip_list(content);
    let ghost ev = string_views(entries@);
    let mut out: Vec<String> = Vec::new();
    let mut i: usize = 0;
    while i < entries.len()
        invariant
            i <= entries.len(),
            ev == string_views(entries@),
            string_views(out@) == ev.take(i as int).map_values(|w: Seq<char>| crate::text::str_lowercase(w)),
        decreases entries.len() - i,
    {
        let w = crate::text::lowercase(&chars_of(entries[i].as_str()));
        let ghost before = out@;
        out.push(string_of(&w));
        assert(ev[i as int] == entries@[i as int]@);
        assert(string_views(out@) =~= string_views(before).push(w@));
        assert(ev.take(i + 1) =~= ev.take(i as int).push(ev[i as int]));
        assert(ev.take(i + 1).map_values(|w: Seq<char>| crate::text::str_lowercase(w)) =~= ev.take(i as int).map_values(
            |w: Seq<char>| crate::text::str_lowercase(w),
        ).push(crate::text::str_lowercase(ev[i as int])));
        i += 1;
    }
    assert(ev.take(entries.len() as int) =~= ev);
    out
}

/// Whether `set` holds the text `x`.
pub fn strings_contain(set: &[String], x: &[char]) -> (r: bool)
    ensures
        r == string_views(set@).contains(x@),
{
    let mut i: usize = 0;
    while i < set.len()
        invariant
            i <= set.len(),
            forall|k: int| 0 <= k < i ==> set@[k]@ != x@,
        decreases set.len() - i,
    {
        let e = chars_of(set[i].as_str());
        if chars_eq(&e, x) {
            assert(string_views(set@)[i as int] == x@);
            return true;
        }
        i += 1;
    }
    assert(!string_views(set@).contains(x@)) by {
        if string_views(set@).contains(x@) {
            let k = choose|k: int| 0 <= k < string_views(set@).len() && string_views(set@)[k] == x@;
            assert(set@[k]@ == x@);
        }
    }
    false
}

/// Check if a remark should be skipped (use the original verbatim): the skip list holds
/// `filename:remark_id`.
pub fn should_skip_remark(skip_set: &[String], filename: &str, remark_id: &str) -> (r: bool)
    ensures
        r == string_views(skip_set@).contains(filename@ + ":"@ + remark_id@),
{
    let mut key = chars_of(filename);
    key.push(':');
    push_str(&mut key, remark_id);
    assert(key@ =~= filename@ + ":"@ + remark_id@) by {
        reveal_strlit(":");
    }
    strings_contain(skip_set, &key)
}


// ---------------------------------------------------------------------------
// Content words and reuse from a translated sibling
// ---------------------------------------------------------------------------

/// The number of bytes of `c` in UTF-8.
pub open spec fn char_utf8_len(c: char) -> nat {
    if (c as u32) < 0x80 {
        1
    } else if (c as u32) < 0x800 {
        2
    } else if (c as u32) < 0x10000 {
        3
    } else {
        4
    }
}

/// The number of bytes of `s` in UTF-8 (`str::len`).
pub open spec fn utf8_len(s: Seq<char>) -> nat
    decreases s.len(),
{
    if s.len() == 0 {
        0
    } else {
        utf8_len(s.drop_last()) + char_utf8_len(s.last())
    }
}

pub fn utf8_len_exec(s: &[char]) -> (n: u128)
    ensures
        n == utf8_len(s@),
        n <= 4 * s@.len(),
{
    let mut n: u128 = 0;
    let mut i: usize = 0;
    while i < s.len()
        invariant
            i <= s.len() <= usize::MAX,
            n == utf8_len(s@.take(i as int)),
            n <= 4 * i,
        decreases s.len() - i,
    {
        assert(s@.take(i + 1).drop_last() =~= s@.take(i as int));
        let c = s[i];
        let code = c as u32;
        if code < 0x80 {
            n += 1;
        } else if code < 0x800 {
            n += 2;
        } else if code < 0x10000 {
            n += 3;
        } else {
            n += 4;
        }
        i += 1;
    }
    assert(s@.take(s.len() as int) =~= s@);
    n
}

/// The pieces of `s` between non-alphanumeric characters (`str::split` with the
/// predicate `!c.is_alphanumeric()`), including empty pieces.
pub open spec fn alnum_split(s: Seq<char>) -> (Seq<Seq<char>>, Seq<char>)
    decreases s.len(),
{
    if s.len() == 0 {
        (Seq::empty(), Seq::empty())
    } else {
        let (done, cur) = alnum_split(s.drop_last());
        let c = s.last();
        if !alphanumeric(c) {
            (done.push(cur), Seq::empty())
        } else {
            (done, cur.push(c))
        }
    }
}

/// The lowercase pieces of `ps` longer than two bytes.
pub open spec fn long_lowercase(ps: Seq<Seq<char>>) -> Seq<Seq<char>>
    decreases ps.len(),
{
    if ps.len() == 0 {
        Seq::empty()
    } else {
        let rest = long_lowercase(ps.drop_last());
        if utf8_len(ps.last()) > 2 {
            rest.push(str_lowercase(ps.last()))
        } else {
            rest
        }
    }
}

/// The content words of a text: HTML tags and emphasis markers become spaces, the text
/// is split at non-alphanumeric characters, and the pieces longer than two bytes are
/// kept, lowercased.
pub open spec fn content_words(text: Seq<char>) -> Seq<Seq<char>> {
    let no_html = subst_all(Pat::Tag, " "@, text);
    let clean = replace(replace(replace(no_html, "_"@, " "@), "**"@, " "@), "*"@, " "@);
    let (done, cur) = alnum_split(clean);
    long_lowercase(done.push(cur))
}

proof fn lemma_utf8_len_at_least(s: Seq<char>)
    ensures
        utf8_len(s) >= s.len(),
    decreases s.len(),
{
    if s.len() > 0 {
        lemma_utf8_len_at_least(s.drop_last());
    }
}

fn content_words_exec(text: &[char]) -> (r: Vec<Vec<char>>)
    ensures
        views(r@) == content_words(text@),
{
    proof {
        reveal_strlit("_");
        reveal_strlit("**");
        reveal_strlit("*");
        reveal_strlit(" ");
    }
    let no_html = subst_all_exec(&Pat::Tag, " ", text);
    let a = replace_exec(&no_html, "_", " ");
    let b = replace_exec(&a, "**", " ");
    let clean = replace_exec(&b, "*", " ");
    let mut done: Vec<Vec<char>> = Vec::new();
    let mut cur: Vec<char> = Vec::new();
    let mut i: usize = 0;
    while i < clean.len()
        invariant
            i <= clean.len(),
            (views(done@), cur@) == alnum_split(clean@.take(i as int)),
        decreases clean.len() - i,
    {
        assert(clean@.take(i + 1).drop_last() =~= clean@.take(i as int));
        let c = clean[i];
        if !is_alphanumeric(c) {
            let ghost before = done@;
            done.push(cur);
            assert(views(done@) =~= views(before).push(cur@));
            cur = Vec::new();
        } else {
            cur.push(c);
        }
        i += 1;
    }
    assert(clean@.take(clean.len() as int) =~= clean@);
    let ghost db = done@;
    done.push(cur);
    assert(views(done@) =~= views(db).push(cur@));
    let mut out: Vec<Vec<char>> = Vec::new();
    let ghost dv = views(done@);
    let mut k: usize = 0;
    while k < done.len()
        invariant
            k <= done.len(),
            dv == views(done@),
            views(out@) == long_lowercase(dv.take(k as int)),
        decreases done.len() - k,
    {
        assert(dv.take(k + 1).drop_last() =~= dv.take(k as int));
        let w = &done[k];
        proof {
            lemma_utf8_len_at_least(w@);
        }
        let long = if w.len() > 2 {
            true
        } else {
            utf8_len_exec(w) > 2
        };
        if long {
            let low = crate::text::lowercase(w);
            let ghost before = out@;
            out.push(low);
            assert(views(out@) =~= views(before).push(low@));
        }
        k += 1;
    }
    assert(dv.take(done.len() as int) =~= dv);
    out
}


/// The first `n` content words of a text, joined with spaces: the lookup key of a remark.
pub open spec fn spec_word_key(text: Seq<char>, n: nat) -> Seq<char> {
    let ws = content_words(text);
    join(if ws.len() <= n {
        ws
    } else {
        ws.take(n as int)
    }, " "@)
}

fn word_key(text: &[char], n: usize) -> (r: Vec<char>)
    ensures
        r@ == spec_word_key(text@, n as nat),
{
    let ws = content_words_exec(text);
    let mut first: Vec<Vec<char>> = Vec::new();
    let mut i: usize = 0;
    while i < ws.len() && i < n
        invariant
            i <= ws.len(),
            i <= n,
            views(first@) == views(ws@).take(i as int),
        decreases ws.len() - i,
    {
        let w = copy_chars(&ws[i]);
        let ghost before = first@;
        first.push(w);
        assert(views(first@) =~= views(before).push(w@));
        assert(views(ws@).take(i + 1) =~= views(ws@).take(i as int).push(w@));
        i += 1;
    }
    if ws.len() <= n {
        assert(views(ws@).take(ws.len() as int) =~= views(ws@));
    }
    let sp = chars_of(" ");
    join_exec(&first, &sp)
}

/// `s` with repeated elements removed, keeping first occurrences.
pub open spec fn dedup(s: Seq<Seq<char>>) -> Seq<Seq<char>>
    decreases s.len(),
{
    if s.len() == 0 {
        Seq::empty()
    } else {
        let d = dedup(s.drop_last());
        if d.contains(s.last()) {
            d
        } else {
            d.push(s.last())
        }
    }
}

/// How many elements of `xs` occur in `ys`.
pub open spec fn count_in(xs: Seq<Seq<char>>, ys: Seq<Seq<char>>) -> nat
    decreases xs.len(),
{
    if xs.len() == 0 {
        0
    } else {
        count_in(xs.drop_last(), ys) + if ys.contains(xs.last()) {
            1nat
        } else {
            0nat
        }
    }
}

/// Whether the sets of content words of `a` and `b` overlap by at least 85% (Jaccard
/// similarity: shared words over all distinct words, and at least one word).
pub open spec fn similar(a: Seq<char>, b: Seq<char>) -> bool {
    let da = dedup(content_words(a));
    let db = dedup(content_words(b));
    let inter = count_in(da, db);
    let union = da.len() + db.len() - inter;
    union > 0 && 20 * inter >= 17 * union
}

fn contains_word(ws: &Vec<Vec<char>>, w: &[char]) -> (r: bool)
    ensures
        r == views(ws@).contains(w@),
{
    crate::translate::work::seen_in(ws, w)
}

fn dedup_exec(s: &Vec<Vec<char>>) -> (r: Vec<Vec<char>>)
    ensures
        views(r@) == dedup(views(s@)),
        r.len() <= s.len(),
{
    let mut out: Vec<Vec<char>> = Vec::new();
    let mut i: usize = 0;
    while i < s.len()
        invariant
            i <= s.len(),
            views(out@) == dedup(views(s@).take(i as int)),
            out.len() <= i,
        decreases s.len() - i,
    {
        assert(views(s@).take(i + 1).drop_last() =~= views(s@).take(i as int));
        if !contains_word(&out, &s[i]) {
            let w = copy_chars(&s[i]);
            let ghost before = out@;
            out.push(w);
            assert(views(out@) =~= views(before).push(w@));
        }
        i += 1;
    }
    assert(views(s@).take(s.len() as int) =~= views(s@));
    out
}

proof fn lemma_count_in_le(xs: Seq<Seq<char>>, ys: Seq<Seq<char>>)
    ensures
        count_in(xs, ys) <= xs.len(),
    decreases xs.len(),
{
    if xs.len() > 0 {
        lemma_count_in_le(xs.drop_last(), ys);
    }
}

fn similar_exec(a: &[char], b: &[char]) -> (r: bool)
    ensures
        r == similar(a@, b@),
{
    let wa = content_words_exec(a);
    let wb = content_words_exec(b);
    let da = dedup_exec(&wa);
    let db = dedup_exec(&wb);
    let mut inter: usize = 0;
    let mut i: usize = 0;
    while i < da.len()
        invariant
            i <= da.len(),
            inter == count_in(views(da@).take(i as int), views(db@)),
            inter <= i,
        decreases da.len() - i,
    {
        assert(views(da@).take(i + 1).drop_last() =~= views(da@).take(i as int));
        if contains_word(&db, &da[i]) {
            inter += 1;
        }
        i += 1;
    }
    assert(views(da@).take(da.len() as int) =~= views(da@));
    proof {
        lemma_count_in_le(views(da@), views(db@));
    }
    let union: u128 = da.len() as u128 + db.len() as u128 - inter as u128;
    union > 0 && 20 * (inter as u128) >= 17 * union
}

/// Remarks of a translated sibling, for reuse: the lookup key, the full German body and
/// the English body of each.
pub struct ReuseMap {
    entries: Vec<(String, String, String)>,
    pub len: usize,
}

/// The `(key, German, English)` triples of a reuse map, as text.
pub open spec fn triple_views(v: Seq<(String, String, String)>) -> Seq<(Seq<char>, Seq<char>, Seq<char>)> {
    v.map_values(|e: (String, String, String)| (e.0@, e.1@, e.2@))
}

/// The English body of the first entry whose key is `key` and whose German body is
/// similar to `german`.
pub open spec fn first_similar(
    es: Seq<(Seq<char>, Seq<char>, Seq<char>)>,
    key: Seq<char>,
    german: Seq<char>,
) -> Option<Seq<char>>
    decreases es.len(),
{
    if es.len() == 0 {
        None
    } else if es[0].0 == key && similar(es[0].1, german) {
        Some(es[0].2)
    } else {
        first_similar(es.drop_first(), key, german)
    }
}

impl ReuseMap {
    /// The entries, in insertion order.
    pub closed spec fn spec_entries(&self) -> Seq<(Seq<char>, Seq<char>, Seq<char>)> {
        triple_views(self.entries@)
    }

    /// The number of reusable remarks.
    pub closed spec fn spec_len(&self) -> usize {
        self.len
    }

    /// Look up a remark body. Returns the English translation if the German text
    /// matches a sibling remark with at least 85% word overlap.
    pub fn lookup(&self, german_body: &str) -> (r: Option<&str>)
        ensures
            r matches Some(x) ==> spec_word_key(german_body@, 6).len() > 0 && first_similar(
                self.spec_entries(),
                spec_word_key(german_body@, 6),
                german_body@,
            ) == Some(x@),
            r is None ==> spec_word_key(german_body@, 6).len() == 0 || first_similar(
                self.spec_entries(),
                spec_word_key(german_body@, 6),
                german_body@,
            ) is None,
    {
        let g = chars_of(german_body);
        let key = word_key(&g, 6);
        if key.len() == 0 {
            return None;
        }
        let ghost es = self.spec_entries();
        let mut i: usize = 0;
        assert(es.subrange(0, es.len() as int) =~= es);
        while i < self.entries.len()
            invariant
                i <= self.entries.len(),
                es == triple_views(self.entries@),
                key@ == spec_word_key(german_body@, 6),
                key@.len() > 0,
                g@ == german_body@,
                first_similar(es, key@, g@) == first_similar(
                    es.subrange(i as int, es.len() as int),
                    key@,
                    g@,
                ),
            decreases self.entries.len() - i,
        {
            proof {
                assert(es.subrange(i as int, es.len() as int).drop_first() =~= es.subrange(
                    i + 1,
                    es.len() as int,
                ));
            }
            let k = chars_of(self.entries[i].0.as_str());
            if chars_eq(&k, &key) {
                let de = chars_of(self.entries[i].1.as_str());
                if similar_exec(&de, &g) {
                    proof {
                        assert(es.subrange(i as int, es.len() as int)[0] == es[i as int]);
                        assert(es[i as int] == (k@, de@, self.entries@[i as int].2@));
                    }
                    return Some(self.entries[i].2.as_str());
                }
            }
            i += 1;
        }
        None
    }
}

/// The reuse entries of a sibling pair: for each German remark paired with the English
/// remark at the same position, its key (if not empty), German body and English body.
pub open spec fn reuse_entries(
    de: Seq<(Seq<char>, Seq<char>)>,
    en: Seq<(Seq<char>, Seq<char>)>,
    n: int,
) -> Seq<(Seq<char>, Seq<char>, Seq<char>)>
    decreases n,
{
    if n <= 0 {
        Seq::empty()
    } else {
        let rest = reuse_entries(de, en, n - 1);
        let key = spec_word_key(de[n - 1].1, 6);
        if key.len() == 0 {
            rest
        } else {
            rest.push((key, de[n - 1].1, en[n - 1].1))
        }
    }
}

/// Build a reuse map from the contents of a translated sibling: its German original and
/// its English translation.
pub fn build_reuse_map(de_content: &str, en_content: &str) -> (m: ReuseMap)
    ensures
        m.spec_entries() == reuse_entries(
            spec_parse_document(de_content@).1,
            spec_parse_document(en_content@).1,
            if spec_parse_document(de_content@).1.len() <= spec_parse_document(en_content@).1.len() {
                spec_parse_document(de_content@).1.len() as int
            } else {
                spec_parse_document(en_content@).1.len() as int
            },
        ),
        m.spec_len() == m.spec_entries().len(),
{
    let (_, de) = parse_document(de_content);
    let (_, en) = parse_document(en_content);
    let n = if de.len() <= en.len() {
        de.len()
    } else {
        en.len()
    };
    let ghost dv = remark_views(de@);
    let ghost ev = remark_views(en@);
    let mut entries: Vec<(String, String, String)> = Vec::new();
    let mut i: usize = 0;
    while i < n
        invariant
            i <= n <= de.len(),
            n <= en.len(),
            dv == remark_views(de@),
            ev == remark_views(en@),
            triple_views(entries@) == reuse_entries(dv, ev, i as int),
            entries.len() <= i,
        decreases n - i,
    {
        let body = chars_of(de[i].body.as_str());
        let key = word_key(&body, 6);
        if key.len() > 0 {
            let ghost before = entries@;
            entries.push((string_of(&key), string_of(&body), string_of(&chars_of(en[i].body.as_str()))));
            assert(triple_views(entries@) =~= triple_views(before).push((key@, dv[i as int].1, ev[i as int].1)));
        }
        i += 1;
    }
    let len = entries.len();
    ReuseMap { entries, len }
}

/// The sibling candidates of a document variant `X-227b.md`: the same stem with each
/// other lowercase letter, in alphabetical order.
pub open spec fn sibling_name(base: Seq<char>, letter: char) -> Seq<char> {
    base.push(letter) + ".md"@
}

/// The first letter from `from` on (up to `z`) other than `last` whose sibling exists
/// both translated and in the original.
pub open spec fn first_sibling(
    base: Seq<char>,
    last: char,
    from: u32,
    translated: Seq<Seq<char>>,
    originals: Seq<Seq<char>>,
) -> Option<Seq<char>>
    decreases 0x7b - from,
{
    if from >= 0x7b || from < 0x61 {
        None
    } else {
        let letter = from as char;
        let name = sibling_name(base, letter);
        if letter != last && translated.contains(name) && originals.contains(name) {
            Some(name)
        } else {
            first_sibling(base, last, (from + 1) as u32, translated, originals)
        }
    }
}

/// The translated sibling to reuse for `filename`: for a stem ending in a lowercase ASCII
/// letter, the first other-letter variant present among both the translated and the
/// original file names.
pub open spec fn spec_find_translated_sibling(
    filename: Seq<char>,
    translated: Seq<Seq<char>>,
    originals: Seq<Seq<char>>,
) -> Option<Seq<char>> {
    if ends_with(filename, ".md"@) && filename.len() >= 3 {
        let stem = filename.subrange(0, filename.len() - 3);
        if stem.len() > 0 && 'a' <= stem.last() && stem.last() <= 'z' {
            first_sibling(stem.drop_last(), stem.last(), 0x61, translated, originals)
        } else {
            None
        }
    } else {
        None
    }
}

/// The search from letter code `from` on meets the first letter `x` (not `last`) whose
/// variant is both translated and original, or finds none exactly when there is none.
proof fn lemma_first_sibling(
    base: Seq<char>,
    last: char,
    from: u32,
    translated: Seq<Seq<char>>,
    originals: Seq<Seq<char>>,
)
    requires
        0x61 <= from <= 0x7b,
    ensures
        first_sibling(base, last, from, translated, originals) is None <==> forall|x: char|
            from <= (x as int) < 0x7b && x != last ==> !(translated.contains(#[trigger] base.push(x)
                + ".md"@) && originals.contains(base.push(x) + ".md"@)),
        first_sibling(base, last, from, translated, originals) matches Some(n) ==> exists|x: char|
            from <= (x as int) < 0x7b && x != last && n == #[trigger] base.push(x) + ".md"@
                && translated.contains(n) && originals.contains(n) && forall|y: char|
                from <= (y as int) < (x as int) && y != last ==> !(translated.contains(
                    #[trigger] base.push(y) + ".md"@,
                ) && originals.contains(base.push(y) + ".md"@)),
    decreases 0x7b - from,
{
    if from < 0x7b {
        let letter = from as char;
        assert(letter as int == from);
        let name = sibling_name(base, letter);
        lemma_first_sibling(base, last, (from + 1) as u32, translated, originals);
        if letter != last && translated.contains(name) && originals.contains(name) {
            assert(base.push(letter) + ".md"@ == name);
        } else {
            match first_sibling(base, last, (from + 1) as u32, translated, originals) {
                Some(n) => {
                    let x = choose|x: char|
                        (from + 1) as u32 <= (x as int) < 0x7b && x != last && n == #[trigger] base.push(x)
                            + ".md"@ && translated.contains(n) && originals.contains(n) && forall|y: char|
                            (from + 1) as u32 <= (y as int) < (x as int) && y != last ==> !(translated.contains(
                                #[trigger] base.push(y) + ".md"@,
                            ) && originals.contains(base.push(y) + ".md"@));
                    assert(base.push(x) + ".md"@ == n);
                    assert forall|y: char|
                        from <= (y as int) < (x as int) && y != last implies !(translated.contains(
                            #[trigger] base.push(y) + ".md"@,
                        ) && originals.contains(base.push(y) + ".md"@)) by {
                        if (y as int) == from {
                            assert(y == letter);
                        }
                    }
                },
                None => {
                    assert forall|x: char|
                        from <= (x as int) < 0x7b && x != last implies !(translated.contains(
                            #[trigger] base.push(x) + ".md"@,
                        ) && originals.contains(base.push(x) + ".md"@)) by {
                        if (x as int) == from {
                            assert(x == letter);
                        }
                    }
                },
            }
        }
    }
}

/// For a variant file `B` + a lowercase letter + `.md`, the sibling found is the variant
/// `B` + `x` + `.md` with the alphabetically first lowercase letter `x`, other than the
/// file's own, whose variant is both among the translated and among the original names;
/// there is none exactly when no other letter gives such a variant.
pub proof fn lemma_translated_sibling(
    base: Seq<char>,
    own: char,
    translated: Seq<Seq<char>>,
    originals: Seq<Seq<char>>,
)
    requires
        'a' <= own <= 'z',
    ensures
        spec_find_translated_sibling(base.push(own) + ".md"@, translated, originals) is None
            <==> forall|x: char|
            'a' <= x <= 'z' && x != own ==> !(translated.contains(#[trigger] base.push(x) + ".md"@)
                && originals.contains(base.push(x) + ".md"@)),
        spec_find_translated_sibling(base.push(own) + ".md"@, translated, originals) matches Some(n)
            ==> exists|x: char|
            'a' <= x <= 'z' && x != own && n == #[trigger] base.push(x) + ".md"@
                && translated.contains(n) && originals.contains(n) && forall|y: char|
                'a' <= y < x && y != own ==> !(translated.contains(#[trigger] base.push(y) + ".md"@)
                    && originals.contains(base.push(y) + ".md"@)),
{
    reveal_strlit(".md");
    let filename = base.push(own) + ".md"@;
    let stem = filename.subrange(0, filename.len() - 3);
    assert(filename.subrange(filename.len() - 3, filename.len() as int) =~= ".md"@);
    assert(stem =~= base.push(own));
    assert(stem.drop_last() =~= base);
    assert(spec_find_translated_sibling(filename, translated, originals) == first_sibling(
        base,
        own,
        0x61,
        translated,
        originals,
    ));
    lemma_first_sibling(base, own, 0x61, translated, originals);
}

/// Find a translated sibling document for reuse: for `Ts-227b.md`, looks for `Ts-227a.md`,
/// `Ts-227c.md`, … that exist both among the translated files and among the originals.
pub fn find_translated_sibling(filename: &str, translated: &[String], originals: &[String]) -> (r: Option<String>)
    ensures
        r matches Some(x) ==> spec_find_translated_sibling(filename@, string_views(translated@), string_views(originals@)) == Some(x@),
        r is None ==> spec_find_translated_sibling(filename@, string_views(translated@), string_views(originals@)) is None,
{
    let f = chars_of(filename);
    let md = chars_of(".md");
    proof {
        reveal_strlit(".md");
    }
    if !(crate::text::ends_with_exec(&f, &md) && f.len() >= 3) {
        return None;
    }
    let stem = slice_chars(&f, 0, f.len() - 3);
    if stem.len() == 0 {
        return None;
    }
    let last = stem[stem.len() - 1];
    if !('a' <= last && last <= 'z') {
        return None;
    }
    let base = slice_chars(&stem, 0, stem.len() - 1);
    assert(base@ =~= stem@.drop_last());
    assert(stem@ =~= filename@.subrange(0, filename@.len() - 3));
    assert(stem@.last() == last);
    assert(spec_find_translated_sibling(filename@, string_views(translated@), string_views(originals@))
        == first_sibling(base@, last, 0x61, string_views(translated@), string_views(originals@)));
    let mut letter: u32 = 0x61;
    while letter < 0x7b
        invariant
            0x61 <= letter <= 0x7b,
            base@ == stem@.drop_last(),
            spec_find_translated_sibling(filename@, string_views(translated@), string_views(originals@))
                == first_sibling(base@, last, 0x61, string_views(translated@), string_views(originals@)),
            first_sibling(base@, last, 0x61, string_views(translated@), string_views(originals@))
                == first_sibling(base@, last, letter, string_views(translated@), string_views(originals@)),
        decreases 0x7b - letter,
    {
        let c = char_of_lower(letter);
        let mut name = copy_chars(&base);
        name.push(c);
        push_str(&mut name, ".md");
        assert(name@ =~= sibling_name(base@, c));
        if c != last && strings_contain(translated, &name) && strings_contain(originals, &name) {
            return Some(string_of(&name));
        }
        letter += 1;
    }
    None
}

fn char_of_lower(code: u32) -> (c: char)
    requires
        0x61 <= code < 0x7b,
    ensures
        c == code as char,
{
    let b = code as u8;
    b as char
}

} // verus!
