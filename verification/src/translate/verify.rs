//! Checks of a translated remark against its German original.
use vstd::prelude::*;
use crate::markup::{
    content, hits, hits_exec, replace_all_from, strip_all, strip_all_exec, span_ok, svs, spans_within,
    Pat, RepKind, Span,
};
use crate::text::{
    chars_of, chars_eq, contains, contains_exec, copy_chars, count_char, count_char_exec, decimal, decimal_exec_wide,
    join, join_exec, lines, lines_exec, push_all, push_decimal, push_str, replace, replace_exec,
    replace_from, slice_chars, str_lowercase, string_of, trim, trim_exec, views,
};
use crate::translate::common::{string_views, Remark};
use crate::translate::reuse::{utf8_len, utf8_len_exec};

verus! {

// ---------------------------------------------------------------------------
// Issues
// ---------------------------------------------------------------------------

/// A problem found in a translated remark.
pub struct Issue {
    pub file: String,
    pub remark_id: String,
    /// The kind of check that failed: `structure`, `emphasis`, `quotes`, `length`,
    /// `untranslated` or `german_words`.
    pub check: String,
    pub description: String,
}

/// An issue as text: file, remark id, check, description.
pub type IssueView = (Seq<char>, Seq<char>, Seq<char>, Seq<char>);

/// The text of an issue.
pub open spec fn issue_view(i: Issue) -> IssueView {
    (i.file@, i.remark_id@, i.check@, i.description@)
}

/// The text of each issue.
pub open spec fn issue_views(v: Seq<Issue>) -> Seq<IssueView> {
    v.map_values(|i: Issue| issue_view(i))
}

/// The settings of a verification run.
pub struct VerifyArgs {
    pub input: String,
    pub translated: String,
    pub emphasis_tolerance: usize,
}

// ---------------------------------------------------------------------------
// What a remark is made of
// ---------------------------------------------------------------------------

/// The tokens listed by `hs`, each as its content between `open` and `close`.
pub open spec fn enclosed(s: Seq<char>, hs: Seq<Span>, open: Seq<char>, close: Seq<char>) -> Seq<
    Seq<char>,
>
    decreases hs.len(),
{
    if hs.len() == 0 {
        Seq::empty()
    } else {
        enclosed(s, hs.drop_last(), open, close).push(open + content(s, hs.last()) + close)
    }
}

/// The `<math>…</math>` blocks of a text.
pub open spec fn math_blocks(s: Seq<char>) -> Seq<Seq<char>> {
    enclosed(s, hits(Pat::MathBlock, s), Seq::empty(), Seq::empty())
}

/// The HTML tags of a text outside its math blocks.
pub open spec fn html_tags(s: Seq<char>) -> Seq<Seq<char>> {
    let t = strip_all(Pat::MathBlock, s);
    enclosed(t, hits(Pat::Tag, t), "<"@, ">"@)
}

/// The image references `![alt](path)` of a text.
pub open spec fn image_refs(s: Seq<char>) -> Seq<Seq<char>> {
    enclosed(s, hits(Pat::Image, s), Seq::empty(), Seq::empty())
}

/// A text without its math blocks and HTML tags.
pub open spec fn markup_free(s: Seq<char>) -> Seq<char> {
    strip_all(Pat::Tag, strip_all(Pat::MathBlock, s))
}

/// The natural-language text of a remark: no math, no tags, no emphasis markers, no
/// image or link syntax.
pub open spec fn plain_text(s: Seq<char>) -> Seq<char> {
    replace(
        replace(
            replace(replace(replace(markup_free(s), "_"@, Seq::empty()), "**"@, Seq::empty()), "!["@, Seq::empty()),
            "]("@,
            Seq::empty(),
        ),
        ")"@,
        Seq::empty(),
    )
}

/// The first `n` characters of `s` (all of them if it is shorter).
pub open spec fn prefix(s: Seq<char>, n: int) -> Seq<char> {
    if s.len() <= n {
        s
    } else {
        s.take(n)
    }
}

/// For each line among `ls` whose text outside math and tags holds a straight double
/// quote: `line N: ` and the first 80 characters of the line.
pub open spec fn quote_hits(ls: Seq<Seq<char>>) -> Seq<Seq<char>>
    decreases ls.len(),
{
    if ls.len() == 0 {
        Seq::empty()
    } else {
        let prev = quote_hits(ls.drop_last());
        let line = ls.last();
        if contains(markup_free(line), "\""@) {
            prev.push("line "@ + decimal(ls.len()) + ": "@ + prefix(line, 80))
        } else {
            prev
        }
    }
}

/// The German-specific characters.
pub open spec fn is_german_char(c: char) -> bool {
    c == 'ä' || c == 'ö' || c == 'ü' || c == 'Ä' || c == 'Ö' || c == 'Ü' || c == 'ß'
}

/// The number of German-specific characters in a text.
pub open spec fn german_char_count(s: Seq<char>) -> nat
    decreases s.len(),
{
    if s.len() == 0 {
        0
    } else {
        german_char_count(s.drop_last()) + if is_german_char(s.last()) {
            1nat
        } else {
            0nat
        }
    }
}

/// The words (runs of letters and umlauts) listed by `hs`, lowercased, that are at
/// least four bytes long.
pub open spec fn long_words(s: Seq<char>, hs: Seq<Span>) -> Seq<Seq<char>>
    decreases hs.len(),
{
    if hs.len() == 0 {
        Seq::empty()
    } else {
        let prev = long_words(s, hs.drop_last());
        let w = str_lowercase(content(s, hs.last()));
        if utf8_len(w) >= 4 {
            prev.push(w)
        } else {
            prev
        }
    }
}

/// The lowercased words of at least four bytes of a text.
pub open spec fn text_words(s: Seq<char>) -> Seq<Seq<char>> {
    long_words(s, hits(Pat::GermanWord, s))
}

/// The order of `String`: lexicographic by characters (the order of their UTF-8 bytes).
pub open spec fn lex_lt(a: Seq<char>, b: Seq<char>) -> bool
    decreases a.len(),
{
    if b.len() == 0 {
        false
    } else if a.len() == 0 {
        true
    } else if a[0] != b[0] {
        (a[0] as u32) < (b[0] as u32)
    } else {
        lex_lt(a.drop_first(), b.drop_first())
    }
}

/// `w` put into the sorted list `v` before the first entry it precedes, unless it is
/// already there.
pub open spec fn insert_sorted(v: Seq<Seq<char>>, w: Seq<char>) -> Seq<Seq<char>>
    decreases v.len(),
{
    if v.len() == 0 {
        seq![w]
    } else if v[0] == w {
        v
    } else if lex_lt(w, v[0]) {
        seq![w] + v
    } else {
        seq![v[0]] + insert_sorted(v.drop_first(), w)
    }
}

/// The words among the first `n` of `de` that occur in `en` and not in `ignored`,
/// sorted and without repetition.
pub open spec fn shared_fold(de: Seq<Seq<char>>, en: Seq<Seq<char>>, ignored: Seq<Seq<char>>, n: int) -> Seq<
    Seq<char>,
>
    decreases n,
{
    if n <= 0 || n > de.len() {
        Seq::empty()
    } else {
        let prev = shared_fold(de, en, ignored, n - 1);
        let w = de[n - 1];
        if en.contains(w) && !ignored.contains(w) {
            insert_sorted(prev, w)
        } else {
            prev
        }
    }
}

/// The words of the German text that also occur in the English one and are not
/// ignored, sorted.
pub open spec fn shared_words(de: Seq<char>, en: Seq<char>, ignored: Seq<Seq<char>>) -> Seq<Seq<char>> {
    let d = text_words(de);
    shared_fold(d, text_words(en), ignored, d.len() as int)
}


// ---------------------------------------------------------------------------
// Issue descriptions
// ---------------------------------------------------------------------------

/// What `format!("{:?}", …)` prints for a list of strings.
pub uninterp spec fn debug_strings(items: Seq<Seq<char>>) -> Seq<char>;

/// The `Debug` rendering of a `Vec<String>` (`format!("{:?}", items)`); its result is
/// named by `debug_strings`, a function of the strings alone.
#[verifier::external_body]
fn debug_list(items: &Vec<String>) -> (r: String)
    ensures
        r@ == debug_strings(string_views(items@)),
{
    format!("{:?}", items)
}


/// A number below 100 written with two digits.
pub open spec fn two_digits(n: nat) -> Seq<char> {
    if n < 10 {
        "0"@ + decimal(n)
    } else {
        decimal(n)
    }
}

/// A number of hundredths written with two decimals.
pub open spec fn hundredths_text(h: nat) -> Seq<char> {
    decimal(h / 100) + "."@ + two_digits(h % 100)
}

/// `DE has a, EN has b`.
pub open spec fn counts_text(a: nat, b: nat) -> Seq<char> {
    "DE has "@ + decimal(a) + ", EN has "@ + decimal(b)
}

/// For each of the first `n` math blocks that differ: `Math block N differs…`.
pub open spec fn math_diffs(dm: Seq<Seq<char>>, em: Seq<Seq<char>>, n: int) -> Seq<Seq<char>>
    decreases n,
{
    if n <= 0 {
        Seq::empty()
    } else {
        let prev = math_diffs(dm, em, n - 1);
        if dm[n - 1] != em[n - 1] {
            prev.push("Math block "@ + decimal(n as nat) + " differs between DE and EN"@)
        } else {
            prev
        }
    }
}

/// The structural problems: math blocks, HTML tags and image references that differ.
pub open spec fn structure_descs(de: Seq<char>, en: Seq<char>) -> Seq<Seq<char>> {
    let dm = math_blocks(de);
    let em = math_blocks(en);
    let dt = html_tags(de);
    let et = html_tags(en);
    let di = image_refs(de);
    let ei = image_refs(en);
    (if dm.len() != em.len() {
        seq!["Math block count mismatch: "@ + counts_text(dm.len(), em.len())]
    } else {
        math_diffs(dm, em, dm.len() as int)
    }) + (if dt != et {
        seq!["HTML tags differ: DE "@ + debug_strings(dt) + " vs EN "@ + debug_strings(et)]
    } else {
        Seq::empty()
    }) + (if di != ei {
        seq!["Image references differ: "@ + counts_text(di.len(), ei.len())]
    } else {
        Seq::empty()
    })
}

/// The emphasis-marker problems: underscore counts further apart than `tol`, asterisk
/// counts that differ.
pub open spec fn emphasis_descs(de: Seq<char>, en: Seq<char>, tol: nat) -> Seq<Seq<char>> {
    let du = count_char(de, '_');
    let eu = count_char(en, '_');
    let diff = if du >= eu {
        du - eu
    } else {
        eu - du
    };
    let da = count_char(de, '*');
    let ea = count_char(en, '*');
    (if diff > tol {
        seq!["Underscore count mismatch: "@ + counts_text(du, eu)]
    } else {
        Seq::empty()
    }) + (if da != ea {
        seq!["Asterisk count mismatch: "@ + counts_text(da, ea)]
    } else {
        Seq::empty()
    })
}

/// An asterisk problem is reported exactly when the German and the English text hold
/// different numbers of asterisks, whichever of the two holds more: then the report
/// names both counts, and otherwise no emphasis problem speaks of asterisks.
pub proof fn lemma_asterisk_issue(de: Seq<char>, en: Seq<char>, tol: nat)
    ensures
        count_char(de, '*') != count_char(en, '*') ==> emphasis_descs(de, en, tol).contains(
            "Asterisk count mismatch: "@ + counts_text(count_char(de, '*'), count_char(en, '*')),
        ),
        count_char(de, '*') == count_char(en, '*') ==> forall|k: int|
            0 <= k < emphasis_descs(de, en, tol).len() ==> !"Asterisk"@.is_prefix_of(
                #[trigger] emphasis_descs(de, en, tol)[k],
            ),
{
    reveal_strlit("Asterisk");
    reveal_strlit("Asterisk count mismatch: ");
    reveal_strlit("Underscore count mismatch: ");
    let d = emphasis_descs(de, en, tol);
    let du = count_char(de, '_');
    let eu = count_char(en, '_');
    let da = count_char(de, '*');
    let ea = count_char(en, '*');
    let under = "Underscore count mismatch: "@ + counts_text(du, eu);
    let aster = "Asterisk count mismatch: "@ + counts_text(da, ea);
    assert(under[0] == 'U');
    assert(!"Asterisk"@.is_prefix_of(under)) by {
        if "Asterisk"@.is_prefix_of(under) {
            assert(under.take(8)[0] == "Asterisk"@[0]);
        }
    }
    if da != ea {
        let u: Seq<Seq<char>> = if (if du >= eu { du - eu } else { eu - du }) > tol {
            seq![under]
        } else {
            Seq::empty()
        };
        assert(d == u + seq![aster]);
        assert(d[u.len() as int] == aster);
    } else {
        assert forall|k: int| 0 <= k < d.len() implies !"Asterisk"@.is_prefix_of(#[trigger] d[k]) by {
            assert(d[k] == under);
        }
    }
}

/// Prefixes each quote hit with its description.
pub open spec fn quote_descs_of(hs: Seq<Seq<char>>) -> Seq<Seq<char>>
    decreases hs.len(),
{
    if hs.len() == 0 {
        Seq::empty()
    } else {
        quote_descs_of(hs.drop_last()).push("Undirected double quote: "@ + hs.last())
    }
}

/// The straight double quotes in the English text.
pub open spec fn quote_descs(en: Seq<char>) -> Seq<Seq<char>> {
    quote_descs_of(quote_hits(lines(en)))
}

/// The length problems: the plain English text under 0.3 or over 2 times as long (in
/// bytes) as a German plain text of more than 20 bytes.
pub open spec fn length_descs(de: Seq<char>, en: Seq<char>) -> Seq<Seq<char>> {
    let dl = utf8_len(trim(plain_text(de)));
    let el = utf8_len(trim(plain_text(en)));
    let tail = " (DE "@ + decimal(dl) + " chars, EN "@ + decimal(el) + " chars)"@;
    if dl > 20 {
        let (below, above, h) = crate::translate::ratio::spec_length_verdict(el, dl);
        if below {
            seq!["Possible truncation: ratio "@ + hundredths_text(h) + tail]
        } else if above {
            seq!["Possible hallucination: ratio "@ + hundredths_text(h) + tail]
        } else {
            Seq::empty()
        }
    } else {
        Seq::empty()
    }
}

/// More than three German-specific characters in the English text.
pub open spec fn untranslated_descs(en: Seq<char>) -> Seq<Seq<char>> {
    let gc = german_char_count(en);
    if gc > 3 {
        seq!["English contains "@ + decimal(gc) + " German-specific characters (ä/ö/ü/ß)"@]
    } else {
        Seq::empty()
    }
}

/// Words of the German plain text found in the English plain text.
pub open spec fn german_word_descs(de: Seq<char>, en: Seq<char>, ignored: Seq<Seq<char>>) -> Seq<
    Seq<char>,
> {
    let ws = shared_words(plain_text(de), plain_text(en), ignored);
    if ws.len() > 0 {
        seq![
            "English contains "@ + decimal(ws.len()) + " word(s) from German original: "@ + join(
                ws,
                ", "@,
            ),
        ]
    } else {
        Seq::empty()
    }
}

/// Issues of one check, one per description.
pub open spec fn tagged(file: Seq<char>, rid: Seq<char>, check: Seq<char>, descs: Seq<Seq<char>>) -> Seq<
    IssueView,
>
    decreases descs.len(),
{
    if descs.len() == 0 {
        Seq::empty()
    } else {
        tagged(file, rid, check, descs.drop_last()).push((file, rid, check, descs.last()))
    }
}

/// All issues of a translated remark, check by check.
pub open spec fn remark_issues(
    file: Seq<char>,
    rid: Seq<char>,
    de: Seq<char>,
    en: Seq<char>,
    tol: nat,
    ignored: Seq<Seq<char>>,
) -> Seq<IssueView> {
    tagged(file, rid, "structure"@, structure_descs(de, en)) + tagged(
        file,
        rid,
        "emphasis"@,
        emphasis_descs(de, en, tol),
    ) + tagged(file, rid, "quotes"@, quote_descs(en)) + tagged(
        file,
        rid,
        "length"@,
        length_descs(de, en),
    ) + tagged(file, rid, "untranslated"@, untranslated_descs(en)) + tagged(
        file,
        rid,
        "german_words"@,
        german_word_descs(de, en, ignored),
    )
}

// ---------------------------------------------------------------------------
// Executable checks
// ---------------------------------------------------------------------------

/// The tokens of kind `p` of `s`, each as its content between `open` and `close`.
fn enclosed_exec(p: &Pat, s: &[char], open: &str, close: &str) -> (r: Vec<Vec<char>>)
    ensures
        views(r@) == enclosed(s@, hits(*p, s@), open@, close@),
{
    let hs = hits_exec(p, s);
    let a = chars_of(open);
    let b = chars_of(close);
    let mut out: Vec<Vec<char>> = Vec::new();
    let mut i: usize = 0;
    while i < hs.len()
        invariant
            i <= hs.len(),
            a@ == open@,
            b@ == close@,
            svs(hs@) == hits(*p, s@),
            spans_within(hs@, s.len() as int),
            views(out@) == enclosed(s@, svs(hs@).take(i as int), open@, close@),
        decreases hs.len() - i,
    {
        proof {
            assert(svs(hs@).take(i + 1).drop_last() =~= svs(hs@).take(i as int));
            assert(svs(hs@).take(i + 1).last() == crate::markup::sv(hs@[i as int]));
        }
        let h = hs[i];
        let mut w: Vec<char> = copy_chars(&a);
        let g = slice_chars(s, h.1, h.2);
        push_all(&mut w, &g);
        push_all(&mut w, &b);
        let ghost before = out@;
        out.push(w);
        assert(views(out@) =~= views(before).push(w@));
        i += 1;
    }
    assert(svs(hs@).take(hs.len() as int) =~= svs(hs@));
    out
}

/// The math blocks of a text.
pub fn math_blocks_exec(s: &[char]) -> (r: Vec<Vec<char>>)
    ensures
        views(r@) == math_blocks(s@),
{
    proof {
        reveal_strlit("");
        assert(""@ =~= Seq::<char>::empty());
    }
    enclosed_exec(&Pat::MathBlock, s, "", "")
}

/// The HTML tags of a text outside its math blocks.
pub fn html_tags_exec(s: &[char]) -> (r: Vec<Vec<char>>)
    ensures
        views(r@) == html_tags(s@),
{
    let t = strip_all_exec(&Pat::MathBlock, s);
    enclosed_exec(&Pat::Tag, &t, "<", ">")
}

/// Whether two lists of texts are equal.
fn texts_eq(a: &Vec<Vec<char>>, b: &Vec<Vec<char>>) -> (r: bool)
    ensures
        r == (views(a@) == views(b@)),
{
    if a.len() != b.len() {
        assert(views(a@).len() != views(b@).len());
        return false;
    }
    let mut i: usize = 0;
    while i < a.len()
        invariant
            i <= a.len(),
            a.len() == b.len(),
            forall|k: int| 0 <= k < i ==> a@[k]@ == b@[k]@,
        decreases a.len() - i,
    {
        if !chars_eq(&a[i], &b[i]) {
            assert(views(a@)[i as int] != views(b@)[i as int]);
            return false;
        }
        i += 1;
    }
    assert(views(a@) =~= views(b@));
    true
}

/// The texts as strings.
fn to_strings(v: &Vec<Vec<char>>) -> (r: Vec<String>)
    ensures
        string_views(r@) == views(v@),
{
    let mut out: Vec<String> = Vec::new();
    let mut i: usize = 0;
    while i < v.len()
        invariant
            i <= v.len(),
            string_views(out@) == views(v@).take(i as int),
        decreases v.len() - i,
    {
        let s = string_of(&v[i]);
        let ghost before = out@;
        out.push(s);
        assert(string_views(out@) =~= string_views(before).push(s@));
        assert(views(v@).take(i + 1) =~= views(v@).take(i as int).push(v@[i as int]@));
        i += 1;
    }
    assert(views(v@).take(v.len() as int) =~= views(v@));
    out
}

/// Appends `DE has a, EN has b`.
fn push_counts(out: &mut Vec<char>, a: usize, b: usize)
    ensures
        final(out)@ == old(out)@ + counts_text(a as nat, b as nat),
{
    let ghost o = old(out)@;
    push_str(out, "DE has ");
    push_decimal(out, a as u64);
    push_str(out, ", EN has ");
    push_decimal(out, b as u64);
    assert(out@ =~= o + counts_text(a as nat, b as nat));
}

/// Appends the ratio `en / de` with two decimals.
fn push_hundredths(out: &mut Vec<char>, h: u128)
    ensures
        final(out)@ == old(out)@ + hundredths_text(h as nat),
{
    let ghost o = old(out)@;
    push_all(out, &decimal_exec_wide(h / 100));
    push_str(out, ".");
    let r = h % 100;
    if r < 10 {
        push_str(out, "0");
    }
    push_all(out, &decimal_exec_wide(r));
    assert(out@ =~= o + hundredths_text(h as nat));
}

/// The hits of `quote_hits` for the lines `ls`.
fn quote_hits_exec(ls: &Vec<Vec<char>>) -> (r: Vec<Vec<char>>)
    ensures
        views(r@) == quote_hits(views(ls@)),
{
    let mut out: Vec<Vec<char>> = Vec::new();
    let mut i: usize = 0;
    while i < ls.len()
        invariant
            i <= ls.len(),
            views(out@) == quote_hits(views(ls@).take(i as int)),
        decreases ls.len() - i,
    {
        let ghost t = views(ls@).take(i + 1);
        assert(t.drop_last() =~= views(ls@).take(i as int));
        let line = &ls[i];
        let no_math = strip_all_exec(&Pat::MathBlock, line);
        let no_tags = strip_all_exec(&Pat::Tag, &no_math);
        if contains_exec(&no_tags, "\"") {
            let mut h = chars_of("line ");
            push_decimal(&mut h, (i + 1) as u64);
            push_str(&mut h, ": ");
            let n = if line.len() <= 80 {
                line.len()
            } else {
                80
            };
            let pre = slice_chars(line, 0, n);
            assert(pre@ =~= prefix(line@, 80));
            push_all(&mut h, &pre);
            let ghost before = out@;
            out.push(h);
            assert(views(out@) =~= views(before).push(h@));
        }
        i += 1;
    }
    assert(views(ls@).take(ls.len() as int) =~= views(ls@));
    out
}

/// The number of German-specific characters in `s`.
fn german_char_count_exec(s: &[char]) -> (n: usize)
    ensures
        n == german_char_count(s@),
{
    let mut n: usize = 0;
    let mut i: usize = 0;
    while i < s.len()
        invariant
            i <= s.len(),
            n <= i,
            n == german_char_count(s@.take(i as int)),
        decreases s.len() - i,
    {
        assert(s@.take(i + 1).drop_last() =~= s@.take(i as int));
        let c = s[i];
        if c == 'ä' || c == 'ö' || c == 'ü' || c == 'Ä' || c == 'Ö' || c == 'Ü' || c == 'ß' {
            n += 1;
        }
        i += 1;
    }
    assert(s@.take(s.len() as int) =~= s@);
    n
}

/// The lowercased words of at least four bytes of `s`.
fn text_words_exec(s: &[char]) -> (r: Vec<Vec<char>>)
    ensures
        views(r@) == text_words(s@),
{
    let hs = hits_exec(&Pat::GermanWord, s);
    let mut out: Vec<Vec<char>> = Vec::new();
    let mut i: usize = 0;
    while i < hs.len()
        invariant
            i <= hs.len(),
            svs(hs@) == hits(Pat::GermanWord, s@),
            spans_within(hs@, s.len() as int),
            views(out@) == long_words(s@, svs(hs@).take(i as int)),
        decreases hs.len() - i,
    {
        proof {
            assert(svs(hs@).take(i + 1).drop_last() =~= svs(hs@).take(i as int));
            assert(svs(hs@).take(i + 1).last() == crate::markup::sv(hs@[i as int]));
        }
        let h = hs[i];
        let word = slice_chars(s, h.1, h.2);
        let w = crate::text::lowercase(&word);
        if (w.len() as u64) < 0x1000_0000_0000u64 {
            let n = utf8_len_exec(&w);
            if n >= 4 {
                let ghost before = out@;
                out.push(w);
                assert(views(out@) =~= views(before).push(w@));
            }
        } else {
            proof {
                lemma_utf8_len_at_least(w@);
            }
            let ghost before = out@;
            out.push(w);
            assert(views(out@) =~= views(before).push(w@));
        }
        i += 1;
    }
    assert(svs(hs@).take(hs.len() as int) =~= svs(hs@));
    out
}

/// A text is at least as long in bytes as in characters.
proof fn lemma_utf8_len_at_least(s: Seq<char>)
    ensures
        utf8_len(s) >= s.len(),
    decreases s.len(),
{
    if s.len() > 0 {
        lemma_utf8_len_at_least(s.drop_last());
    }
}

/// Whether `a` comes before `b` in the order of strings.
pub(crate) fn lex_lt_exec(a: &[char], b: &[char]) -> (r: bool)
    ensures
        r == lex_lt(a@, b@),
{
    let mut i: usize = 0;
    assert(a@.skip(0) =~= a@);
    assert(b@.skip(0) =~= b@);
    while i < a.len() && i < b.len()
        invariant
            i <= a.len(),
            i <= b.len(),
            lex_lt(a@, b@) == lex_lt(a@.skip(i as int), b@.skip(i as int)),
        decreases a.len() - i,
    {
        let ca = a[i];
        let cb = b[i];
        if ca != cb {
            assert(a@.skip(i as int)[0] == ca);
            assert(b@.skip(i as int)[0] == cb);
            return (ca as u32) < (cb as u32);
        }
        assert(a@.skip(i as int).drop_first() =~= a@.skip(i + 1));
        assert(b@.skip(i as int).drop_first() =~= b@.skip(i + 1));
        i += 1;
    }
    i < b.len()
}

/// Puts `w` into the sorted list `v` as `insert_sorted` does.
pub(crate) fn insert_sorted_exec(v: &mut Vec<Vec<char>>, w: Vec<char>)
    ensures
        views(final(v)@) == insert_sorted(views(old(v)@), w@),
{
    let ghost o = views(old(v)@);
    let mut i: usize = 0;
    assert(o.skip(0) =~= o);
    assert(o.take(0) + insert_sorted(o, w@) =~= insert_sorted(o, w@));
    while i < v.len() && !chars_eq(&v[i], &w) && !lex_lt_exec(&w, &v[i])
        invariant
            i <= v.len(),
            views(v@) == o,
            insert_sorted(o, w@) == o.take(i as int) + insert_sorted(o.skip(i as int), w@),
        decreases v.len() - i,
    {
        proof {
            let rest = o.skip(i as int);
            assert(rest[0] == o[i as int]);
            assert(rest.drop_first() =~= o.skip(i + 1));
            assert(o.take(i + 1) =~= o.take(i as int) + seq![o[i as int]]);
            assert(o.take(i as int) + (seq![rest[0]] + insert_sorted(rest.drop_first(), w@)) =~= o.take(
                i + 1,
            ) + insert_sorted(o.skip(i + 1), w@));
        }
        i += 1;
    }
    if i < v.len() && chars_eq(&v[i], &w) {
        assert(o.skip(i as int)[0] == w@);
        assert(o.take(i as int) + o.skip(i as int) =~= o);
        return;
    }
    let ghost before = v@;
    v.insert(i, w);
    proof {
        if i < o.len() {
            assert(o.skip(i as int)[0] == o[i as int]);
        }
        assert(views(v@) =~= o.take(i as int) + (seq![w@] + o.skip(i as int)));
        if i == o.len() {
            assert(o.skip(i as int) =~= Seq::<Seq<char>>::empty());
            assert(o.take(i as int) =~= o);
        }
    }
}

/// Whether the list `ws` holds the text `w`.
fn texts_contain(ws: &Vec<Vec<char>>, w: &[char]) -> (r: bool)
    ensures
        r == views(ws@).contains(w@),
{
    let mut i: usize = 0;
    while i < ws.len()
        invariant
            i <= ws.len(),
            forall|k: int| 0 <= k < i ==> ws@[k]@ != w@,
        decreases ws.len() - i,
    {
        if chars_eq(&ws[i], w) {
            assert(views(ws@)[i as int] == w@);
            return true;
        }
        i += 1;
    }
    assert(!views(ws@).contains(w@)) by {
        if views(ws@).contains(w@) {
            let k = choose|k: int| 0 <= k < views(ws@).len() && views(ws@)[k] == w@;
            assert(ws@[k]@ == w@);
        }
    }
    false
}

/// The words of the German text that also occur in the English text and are not among
/// `ignored` (lowercase), sorted and without repetition.
pub fn check_german_words(de_text: &str, en_text: &str, ignored: &[String]) -> (r: Vec<String>)
    ensures
        string_views(r@) == shared_words(de_text@, en_text@, string_views(ignored@)),
{
    let d = chars_of(de_text);
    let e = chars_of(en_text);
    let r = shared_words_exec(&d, &e, ignored);
    to_strings(&r)
}

fn shared_words_exec(de_text: &[char], en_text: &[char], ignored: &[String]) -> (r: Vec<Vec<char>>)
    ensures
        views(r@) == shared_words(de_text@, en_text@, string_views(ignored@)),
{
    let dw = text_words_exec(de_text);
    let ew = text_words_exec(en_text);
    let ghost ign = string_views(ignored@);
    let mut out: Vec<Vec<char>> = Vec::new();
    let mut i: usize = 0;
    while i < dw.len()
        invariant
            i <= dw.len(),
            views(dw@) == text_words(de_text@),
            views(ew@) == text_words(en_text@),
            ign == string_views(ignored@),
            views(out@) == shared_fold(views(dw@), views(ew@), ign, i as int),
        decreases dw.len() - i,
    {
        let w = &dw[i];
        assert(views(dw@)[i as int] == w@);
        if texts_contain(&ew, w) && !crate::translate::reuse::strings_contain(ignored, w) {
            insert_sorted_exec(&mut out, copy_chars(w));
        }
        i += 1;
    }
    out
}

/// The natural-language text of a remark.
fn plain_text_exec(s: &[char]) -> (r: Vec<char>)
    ensures
        r@ == plain_text(s@),
        r@.len() <= s@.len(),
{
    proof {
        reveal_strlit("_");
        reveal_strlit("**");
        reveal_strlit("![");
        reveal_strlit("](");
        reveal_strlit(")");
        reveal_strlit("");
        assert(""@ =~= Seq::<char>::empty());
    }
    let a = strip_all_exec(&Pat::MathBlock, s);
    let b = strip_all_exec(&Pat::Tag, &a);
    let c = replace_exec(&b, "_", "");
    let d = replace_exec(&c, "**", "");
    let e = replace_exec(&d, "![", "");
    let f = replace_exec(&e, "](", "");
    let g = replace_exec(&f, ")", "");
    proof {
        lemma_strip_len(Pat::MathBlock, s@, 0);
        lemma_strip_len(Pat::Tag, a@, 0);
        lemma_drop_len(b@, "_"@, 0);
        lemma_drop_len(c@, "**"@, 0);
        lemma_drop_len(d@, "!["@, 0);
        lemma_drop_len(e@, "]("@, 0);
        lemma_drop_len(f@, ")"@, 0);
    }
    g
}

/// Removing tokens never lengthens a text.
proof fn lemma_strip_len(p: Pat, s: Seq<char>, i: int)
    requires
        0 <= i <= s.len(),
    ensures
        replace_all_from(p, RepKind::Drop, Seq::empty(), Seq::empty(), s, i).len() <= s.len() - i,
    decreases s.len() - i,
{
    if i < s.len() {
        match crate::markup::hit(p, s, i) {
            Some(h) => {
                lemma_strip_len(p, s, h.0);
            },
            None => {
                lemma_strip_len(p, s, i + 1);
            },
        }
    }
}

/// Deleting the occurrences of a pattern never lengthens a text.
proof fn lemma_drop_len(s: Seq<char>, pat: Seq<char>, i: int)
    requires
        0 <= i <= s.len(),
    ensures
        replace_from(s, pat, Seq::empty(), i).len() <= s.len() - i,
    decreases s.len() - i,
{
    if i < s.len() && pat.len() > 0 {
        if crate::text::matches_at(s, pat, i) {
            lemma_drop_len(s, pat, i + pat.len());
            assert(Seq::<char>::empty() + replace_from(s, pat, Seq::empty(), i + pat.len())
                =~= replace_from(s, pat, Seq::empty(), i + pat.len()));
        } else {
            lemma_drop_len(s, pat, i + 1);
        }
    }
}

// ---------------------------------------------------------------------------
// Descriptions and the whole check
// ---------------------------------------------------------------------------

/// The description of differing HTML tags, given the `Debug` renderings of the German
/// and the English tag lists.
pub fn tags_differ_description(de_debug: &str, en_debug: &str) -> (r: String)
    ensures
        r@ == "HTML tags differ: DE "@ + de_debug@ + " vs EN "@ + en_debug@,
{
    let mut out = chars_of("HTML tags differ: DE ");
    push_str(&mut out, de_debug);
    push_str(&mut out, " vs EN ");
    push_str(&mut out, en_debug);
    string_of(&out)
}

fn math_diffs_exec(dm: &Vec<Vec<char>>, em: &Vec<Vec<char>>) -> (r: Vec<Vec<char>>)
    requires
        dm.len() == em.len(),
    ensures
        views(r@) == math_diffs(views(dm@), views(em@), dm.len() as int),
{
    let mut out: Vec<Vec<char>> = Vec::new();
    let mut i: usize = 0;
    while i < dm.len()
        invariant
            i <= dm.len(),
            dm.len() == em.len(),
            views(out@) == math_diffs(views(dm@), views(em@), i as int),
        decreases dm.len() - i,
    {
        assert(views(dm@)[i as int] == dm@[i as int]@);
        assert(views(em@)[i as int] == em@[i as int]@);
        if !chars_eq(&dm[i], &em[i]) {
            let mut d = chars_of("Math block ");
            push_decimal(&mut d, (i + 1) as u64);
            push_str(&mut d, " differs between DE and EN");
            let ghost before = out@;
            out.push(d);
            assert(views(out@) =~= views(before).push(d@));
        }
        i += 1;
    }
    out
}

fn push_desc(out: &mut Vec<Vec<char>>, d: Vec<char>)
    ensures
        views(final(out)@) == views(old(out)@).push(d@),
{
    let ghost before = out@;
    out.push(d);
    assert(views(out@) =~= views(before).push(d@));
}

fn structure_descs_exec(de: &[char], en: &[char]) -> (r: Vec<Vec<char>>)
    ensures
        views(r@) == structure_descs(de@, en@),
{
    let dm = enclosed_exec(&Pat::MathBlock, de, "", "");
    let em = enclosed_exec(&Pat::MathBlock, en, "", "");
    proof {
        reveal_strlit("");
        assert(""@ =~= Seq::<char>::empty());
    }
    let mut out: Vec<Vec<char>> = if dm.len() != em.len() {
        let mut d = chars_of("Math block count mismatch: ");
        push_counts(&mut d, dm.len(), em.len());
        let mut o: Vec<Vec<char>> = Vec::new();
        push_desc(&mut o, d);
        o
    } else {
        math_diffs_exec(&dm, &em)
    };
    let ghost part1 = views(out@);
    let de_nm = strip_all_exec(&Pat::MathBlock, de);
    let en_nm = strip_all_exec(&Pat::MathBlock, en);
    let dt = enclosed_exec(&Pat::Tag, &de_nm, "<", ">");
    let et = enclosed_exec(&Pat::Tag, &en_nm, "<", ">");
    if !texts_eq(&dt, &et) {
        let dd = debug_list(&to_strings(&dt));
        let ed = debug_list(&to_strings(&et));
        let desc = tags_differ_description(dd.as_str(), ed.as_str());
        push_desc(&mut out, chars_of(desc.as_str()));
    }
    let ghost part2 = views(out@);
    let di = enclosed_exec(&Pat::Image, de, "", "");
    let ei = enclosed_exec(&Pat::Image, en, "", "");
    if !texts_eq(&di, &ei) {
        let mut d = chars_of("Image references differ: ");
        push_counts(&mut d, di.len(), ei.len());
        push_desc(&mut out, d);
    }
    proof {
        assert(views(out@) =~= structure_descs(de@, en@));
    }
    out
}

fn emphasis_descs_exec(de: &[char], en: &[char], tol: usize) -> (r: Vec<Vec<char>>)
    ensures
        views(r@) == emphasis_descs(de@, en@, tol as nat),
{
    let du = count_char_exec(de, '_');
    let eu = count_char_exec(en, '_');
    let diff = if du >= eu {
        du - eu
    } else {
        eu - du
    };
    let mut out: Vec<Vec<char>> = Vec::new();
    if diff > tol {
        let mut d = chars_of("Underscore count mismatch: ");
        push_counts(&mut d, du, eu);
        push_desc(&mut out, d);
    }
    let da = count_char_exec(de, '*');
    let ea = count_char_exec(en, '*');
    if da != ea {
        let mut d = chars_of("Asterisk count mismatch: ");
        push_counts(&mut d, da, ea);
        push_desc(&mut out, d);
    }
    assert(views(out@) =~= emphasis_descs(de@, en@, tol as nat));
    out
}

fn quote_descs_exec(en: &[char]) -> (r: Vec<Vec<char>>)
    ensures
        views(r@) == quote_descs(en@),
{
    let ls = lines_exec(en);
    let hs = quote_hits_exec(&ls);
    let mut out: Vec<Vec<char>> = Vec::new();
    let mut i: usize = 0;
    while i < hs.len()
        invariant
            i <= hs.len(),
            views(out@) == quote_descs_of(views(hs@).take(i as int)),
        decreases hs.len() - i,
    {
        assert(views(hs@).take(i + 1).drop_last() =~= views(hs@).take(i as int));
        let mut d = chars_of("Undirected double quote: ");
        push_all(&mut d, &hs[i]);
        push_desc(&mut out, d);
        i += 1;
    }
    assert(views(hs@).take(hs.len() as int) =~= views(hs@));
    out
}

fn length_descs_exec(de: &[char], en: &[char]) -> (r: Vec<Vec<char>>)
    ensures
        views(r@) == length_descs(de@, en@),
{
    let dp = trim_exec(&plain_text_exec(de));
    let ep = trim_exec(&plain_text_exec(en));
    proof {
        crate::text::lemma_trim_len(plain_text(de@));
        crate::text::lemma_trim_len(plain_text(en@));
    }
    let dl = utf8_len_exec(&dp);
    let el = utf8_len_exec(&ep);
    assert(dp@.len() == dp.len() && ep@.len() == ep.len());
    assert(dl <= 4 * 0x1_0000_0000_0000_0000) by {
        assert(dp.len() <= usize::MAX);
    }
    assert(el <= 4 * 0x1_0000_0000_0000_0000) by {
        assert(ep.len() <= usize::MAX);
    }
    let mut out: Vec<Vec<char>> = Vec::new();
    if dl > 20 {
        let (below, above, h) = crate::translate::ratio::length_verdict(el, dl);
        if below || above {
            let mut d = if below {
                chars_of("Possible truncation: ratio ")
            } else {
                chars_of("Possible hallucination: ratio ")
            };
            push_hundredths(&mut d, h);
            push_str(&mut d, " (DE ");
            push_all(&mut d, &decimal_exec_wide(dl));
            push_str(&mut d, " chars, EN ");
            push_all(&mut d, &decimal_exec_wide(el));
            push_str(&mut d, " chars)");
            proof {
                let tail = " (DE "@ + decimal(dl as nat) + " chars, EN "@ + decimal(el as nat)
                    + " chars)"@;
                if below {
                    assert(d@ =~= "Possible truncation: ratio "@ + hundredths_text(h as nat) + tail);
                } else {
                    assert(d@ =~= "Possible hallucination: ratio "@ + hundredths_text(h as nat) + tail);
                }
            }
            push_desc(&mut out, d);
        }
    }
    assert(views(out@) =~= length_descs(de@, en@));
    out
}

fn untranslated_descs_exec(en: &[char]) -> (r: Vec<Vec<char>>)
    ensures
        views(r@) == untranslated_descs(en@),
{
    let gc = german_char_count_exec(en);
    let mut out: Vec<Vec<char>> = Vec::new();
    if gc > 3 {
        let mut d = chars_of("English contains ");
        push_decimal(&mut d, gc as u64);
        push_str(&mut d, " German-specific characters (ä/ö/ü/ß)");
        push_desc(&mut out, d);
    }
    assert(views(out@) =~= untranslated_descs(en@));
    out
}

fn german_word_descs_exec(de: &[char], en: &[char], ignored: &[String]) -> (r: Vec<Vec<char>>)
    ensures
        views(r@) == german_word_descs(de@, en@, string_views(ignored@)),
{
    let dp = plain_text_exec(de);
    let ep = plain_text_exec(en);
    let ws = shared_words_exec(&dp, &ep, ignored);
    let mut out: Vec<Vec<char>> = Vec::new();
    if ws.len() > 0 {
        let mut d = chars_of("English contains ");
        push_decimal(&mut d, ws.len() as u64);
        push_str(&mut d, " word(s) from German original: ");
        let sep = chars_of(", ");
        let j = join_exec(&ws, &sep);
        push_all(&mut d, &j);
        push_desc(&mut out, d);
    }
    assert(views(out@) =~= german_word_descs(de@, en@, string_views(ignored@)));
    out
}

/// Appends one issue of the check `check` for each description.
fn push_tagged(issues: &mut Vec<Issue>, file: &str, rid: &str, check: &str, descs: &Vec<Vec<char>>)
    ensures
        issue_views(final(issues)@) == issue_views(old(issues)@) + tagged(
            file@,
            rid@,
            check@,
            views(descs@),
        ),
{
    let ghost o = issue_views(old(issues)@);
    let mut i: usize = 0;
    while i < descs.len()
        invariant
            i <= descs.len(),
            issue_views(issues@) == o + tagged(file@, rid@, check@, views(descs@).take(i as int)),
        decreases descs.len() - i,
    {
        assert(views(descs@).take(i + 1).drop_last() =~= views(descs@).take(i as int));
        let issue = Issue {
            file: string_of(&chars_of(file)),
            remark_id: string_of(&chars_of(rid)),
            check: string_of(&chars_of(check)),
            description: string_of(&descs[i]),
        };
        let ghost before = issues@;
        issues.push(issue);
        assert(issue_views(issues@) =~= issue_views(before).push(issue_view(issue)));
        i += 1;
    }
    assert(views(descs@).take(descs.len() as int) =~= views(descs@));
}

/// Checks a translated remark against its German original and appends what is wrong
/// to `issues`: math blocks, HTML tags and images that differ; emphasis markers whose
/// counts differ (underscores by more than `emphasis_tolerance`); straight double
/// quotes; a suspicious length ratio; German characters and German words left in the
/// English text (apart from `ignore_words`).
#[verifier::rlimit(60)]
pub fn verify_remark(
    file_name: &str,
    _idx: usize,
    remark_id: &str,
    german: &Remark,
    english: &Remark,
    issues: &mut Vec<Issue>,
    emphasis_tolerance: usize,
    ignore_words: &[String],
)
    ensures
        issue_views(final(issues)@) == issue_views(old(issues)@) + remark_issues(
            file_name@,
            remark_id@,
            german.body@,
            english.body@,
            emphasis_tolerance as nat,
            string_views(ignore_words@),
        ),
{
    let de = chars_of(german.body.as_str());
    let en = chars_of(english.body.as_str());
    let ghost o = issue_views(old(issues)@);
    let sd = structure_descs_exec(&de, &en);
    let ed = emphasis_descs_exec(&de, &en, emphasis_tolerance);
    let qd = quote_descs_exec(&en);
    let ld = length_descs_exec(&de, &en);
    let ud = untranslated_descs_exec(&en);
    let gd = german_word_descs_exec(&de, &en, ignore_words);
    let ghost t1 = tagged(file_name@, remark_id@, "structure"@, views(sd@));
    let ghost t2 = tagged(file_name@, remark_id@, "emphasis"@, views(ed@));
    let ghost t3 = tagged(file_name@, remark_id@, "quotes"@, views(qd@));
    let ghost t4 = tagged(file_name@, remark_id@, "length"@, views(ld@));
    let ghost t5 = tagged(file_name@, remark_id@, "untranslated"@, views(ud@));
    let ghost t6 = tagged(file_name@, remark_id@, "german_words"@, views(gd@));
    push_tagged(issues, file_name, remark_id, "structure", &sd);
    push_tagged(issues, file_name, remark_id, "emphasis", &ed);
    push_tagged(issues, file_name, remark_id, "quotes", &qd);
    push_tagged(issues, file_name, remark_id, "length", &ld);
    push_tagged(issues, file_name, remark_id, "untranslated", &ud);
    push_tagged(issues, file_name, remark_id, "german_words", &gd);
    assert(issue_views(issues@) =~= o + (t1 + t2 + t3 + t4 + t5 + t6));
}

// ---------------------------------------------------------------------------
// Laws
// ---------------------------------------------------------------------------

/// Whether the texts of `v` are in strictly increasing order.
pub open spec fn sorted_texts(v: Seq<Seq<char>>) -> bool {
    forall|i: int, j: int| 0 <= i < j < v.len() ==> lex_lt(#[trigger] v[i], #[trigger] v[j])
}

/// The order of texts is transitive.
pub proof fn lemma_lex_lt_trans(a: Seq<char>, b: Seq<char>, c: Seq<char>)
    requires
        lex_lt(a, b),
        lex_lt(b, c),
    ensures
        lex_lt(a, c),
    decreases a.len(),
{
    if a.len() > 0 && a[0] == b[0] && b[0] == c[0] {
        lemma_lex_lt_trans(a.drop_first(), b.drop_first(), c.drop_first());
    }
}

/// Of two different texts, one comes before the other.
pub proof fn lemma_lex_lt_total(a: Seq<char>, b: Seq<char>)
    ensures
        a == b || lex_lt(a, b) || lex_lt(b, a),
    decreases a.len(),
{
    if a.len() > 0 && b.len() > 0 && a[0] == b[0] {
        lemma_lex_lt_total(a.drop_first(), b.drop_first());
        if a.drop_first() == b.drop_first() {
            assert(a =~= seq![a[0]] + a.drop_first());
            assert(b =~= seq![b[0]] + b.drop_first());
        }
    } else if a.len() == 0 && b.len() == 0 {
        assert(a =~= b);
    } else if a.len() > 0 && b.len() > 0 {
        vstd::utf8::char_u32_cast(a[0], a[0] as u32);
        vstd::utf8::char_u32_cast(b[0], b[0] as u32);
        assert((a[0] as u32) != (b[0] as u32));
    }
}

/// Inserting into a list keeps its texts, adds the new one and nothing else.
pub proof fn lemma_insert_sorted_contents(v: Seq<Seq<char>>, w: Seq<char>)
    ensures
        insert_sorted(v, w).contains(w),
        forall|k: int| 0 <= k < v.len() ==> insert_sorted(v, w).contains(#[trigger] v[k]),
        forall|k: int|
            0 <= k < insert_sorted(v, w).len() ==> v.contains(#[trigger] insert_sorted(v, w)[k])
                || insert_sorted(v, w)[k] == w,
    decreases v.len(),
{
    let r = insert_sorted(v, w);
    if v.len() == 0 {
        assert(r[0] == w);
    } else if v[0] == w {
        assert(r[0] == w);
        assert forall|k: int| 0 <= k < v.len() implies r.contains(#[trigger] v[k]) by {
            assert(r[k] == v[k]);
        }
        assert forall|k: int| 0 <= k < r.len() implies v.contains(#[trigger] r[k]) || r[k] == w by {
            assert(v[k] == r[k]);
        }
    } else if lex_lt(w, v[0]) {
        assert(r[0] == w);
        assert forall|k: int| 0 <= k < v.len() implies r.contains(#[trigger] v[k]) by {
            assert(r[k + 1] == v[k]);
        }
        assert forall|k: int| 0 <= k < r.len() implies v.contains(#[trigger] r[k]) || r[k] == w by {
            if k > 0 {
                assert(v[k - 1] == r[k]);
            }
        }
    } else {
        let rest = v.drop_first();
        lemma_insert_sorted_contents(rest, w);
        let ri = insert_sorted(rest, w);
        assert(r == seq![v[0]] + ri);
        let kw = choose|k: int| 0 <= k < ri.len() && ri[k] == w;
        assert(r[kw + 1] == w);
        assert forall|k: int| 0 <= k < v.len() implies r.contains(#[trigger] v[k]) by {
            if k == 0 {
                assert(r[0] == v[0]);
            } else {
                assert(rest[k - 1] == v[k]);
                assert(ri.contains(rest[k - 1]));
                let m = choose|m: int| 0 <= m < ri.len() && ri[m] == rest[k - 1];
                assert(r[m + 1] == v[k]);
            }
        }
        assert forall|k: int| 0 <= k < r.len() implies v.contains(#[trigger] r[k]) || r[k] == w by {
            if k == 0 {
                assert(v[0] == r[0]);
            } else {
                assert(r[k] == ri[k - 1]);
                if rest.contains(ri[k - 1]) {
                    let m = choose|m: int| 0 <= m < rest.len() && rest[m] == ri[k - 1];
                    assert(v[m + 1] == r[k]);
                }
            }
        }
    }
}

/// Inserting into a sorted list keeps it sorted.
pub proof fn lemma_insert_sorted_sorted(v: Seq<Seq<char>>, w: Seq<char>)
    requires
        sorted_texts(v),
    ensures
        sorted_texts(insert_sorted(v, w)),
    decreases v.len(),
{
    let r = insert_sorted(v, w);
    if v.len() == 0 {
    } else if v[0] == w {
    } else if lex_lt(w, v[0]) {
        assert forall|i: int, j: int| 0 <= i < j < r.len() implies lex_lt(#[trigger] r[i], #[trigger] r[j]) by {
            assert(r[j] == v[j - 1]);
            if i == 0 {
                if j > 1 {
                    lemma_lex_lt_trans(w, v[0], v[j - 1]);
                }
            } else {
                assert(r[i] == v[i - 1]);
            }
        }
    } else {
        lemma_lex_lt_total(w, v[0]);
        let rest = v.drop_first();
        assert(sorted_texts(rest)) by {
            assert forall|i: int, j: int| 0 <= i < j < rest.len() implies lex_lt(#[trigger] rest[i], #[trigger] rest[j]) by {
                assert(rest[i] == v[i + 1] && rest[j] == v[j + 1]);
            }
        }
        lemma_insert_sorted_sorted(rest, w);
        lemma_insert_sorted_contents(rest, w);
        let ri = insert_sorted(rest, w);
        assert(r == seq![v[0]] + ri);
        assert forall|i: int, j: int| 0 <= i < j < r.len() implies lex_lt(#[trigger] r[i], #[trigger] r[j]) by {
            assert(r[j] == ri[j - 1]);
            if i == 0 {
                assert(r[0] == v[0]);
                if ri[j - 1] != w {
                    assert(rest.contains(ri[j - 1]));
                    let m = choose|m: int| 0 <= m < rest.len() && rest[m] == ri[j - 1];
                    assert(v[m + 1] == ri[j - 1]);
                }
            } else {
                assert(r[i] == ri[i - 1]);
            }
        }
    }
}

proof fn lemma_no_math_diffs(dm: Seq<Seq<char>>, n: int)
    requires
        0 <= n <= dm.len(),
    ensures
        math_diffs(dm, dm, n) == Seq::<Seq<char>>::empty(),
    decreases n,
{
    if n > 0 {
        lemma_no_math_diffs(dm, n - 1);
    }
}

/// A remark checked against itself raises no structural, emphasis or length issue:
/// only the checks on the English text alone (quotes, German characters) and the
/// shared-word check can report anything.
pub proof fn lemma_identical_texts_pass_structure(text: Seq<char>, tol: nat)
    ensures
        structure_descs(text, text) == Seq::<Seq<char>>::empty(),
        emphasis_descs(text, text, tol) == Seq::<Seq<char>>::empty(),
        length_descs(text, text) == Seq::<Seq<char>>::empty(),
{
    lemma_no_math_diffs(math_blocks(text), math_blocks(text).len() as int);
    let dl = utf8_len(trim(plain_text(text)));
    if dl > 20 {
        crate::translate::ratio::lemma_same_lengths(dl);
    }
    assert(structure_descs(text, text) =~= Seq::<Seq<char>>::empty());
    assert(emphasis_descs(text, text, tol) =~= Seq::<Seq<char>>::empty());
}
} // verus!
