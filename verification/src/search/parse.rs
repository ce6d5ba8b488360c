//! Extract one record per remark from the published Markdown.
//!
//! A document file has a `# Title` line, then remark blocks each opened by a `### `
//! heading that holds `<span class="fac">` with the facsimile links, an optional
//! explicit `{#id}` and optional work links; the body may begin with a `DD.MM.YYYY`
//! date line and may carry a series-number span.
use vstd::prelude::*;
use crate::markup::{
    content, first_hit, first_hit_exec, hits, hits_exec, spans_within, strip_all, strip_all_exec,
    subst_all, subst_all_exec, svs, target, unwrap_all, unwrap_all_exec, Delimiter, Pat, Span,
};
use crate::search::record::{link_view, link_views, WorkLink};
use crate::search::slug::{github_slug, spec_github_slug, spec_unescape_label, unescape_chars};
use crate::text::{
    before_first, before_first_exec, chars_of, concat, concat_exec, contains, contains_exec,
    copy_chars, decimal, in_class, lines, lines_exec, push_all, push_decimal, push_str, replace,
    replace_exec, run_end, run_end_exec, slice_chars, starts_with, starts_with_exec, str_lowercase,
    str_uppercase, string_of, trim, trim_exec, views, white_space, CharClass,
};
use crate::translate::common::string_views;

verus! {

/// A document's name, URL slug and type.
pub struct DocMeta {
    pub doc: String,
    pub doc_slug: String,
    pub doctype: String,
}

/// One remark of a document.
pub struct Remark {
    pub page_refs: Vec<String>,
    pub fragment: String,
    pub image_url: Option<String>,
    pub date: Option<String>,
    pub date_sort: Option<u64>,
    pub series_number: Option<String>,
    pub content: String,
    pub works: Vec<WorkLink>,
}

/// The text of an optional string.
pub open spec fn opt_view(o: Option<String>) -> Option<Seq<char>> {
    match o {
        Some(s) => Some(s@),
        None => None,
    }
}

/// A document's metadata as `(doc, doc_slug, doctype)`.
pub open spec fn meta_view(m: DocMeta) -> (Seq<char>, Seq<char>, Seq<char>) {
    (m.doc@, m.doc_slug@, m.doctype@)
}

/// A work link as text.
pub type LinkView = (Seq<char>, Seq<char>, Seq<char>);

/// A remark as text: page references, fragment, image, date, date key, series number,
/// content, works.
pub type RemarkView = (
    Seq<Seq<char>>,
    Seq<char>,
    Option<Seq<char>>,
    Option<Seq<char>>,
    Option<nat>,
    Option<Seq<char>>,
    Seq<char>,
    Seq<LinkView>,
);

/// The view of a remark.
pub open spec fn remark_view(r: Remark) -> RemarkView {
    (
        string_views(r.page_refs@),
        r.fragment@,
        opt_view(r.image_url),
        opt_view(r.date),
        match r.date_sort {
            Some(v) => Some(v as nat),
            None => None,
        },
        opt_view(r.series_number),
        r.content@,
        link_views(r.works@),
    )
}

// ---------------------------------------------------------------------------
// Document title and remark blocks
// ---------------------------------------------------------------------------

/// The first line beginning with `# `.
pub open spec fn first_title(ls: Seq<Seq<char>>) -> Option<Seq<char>>
    decreases ls.len(),
{
    if ls.len() == 0 {
        None
    } else if starts_with(ls[0], "# "@) {
        Some(ls[0])
    } else {
        first_title(ls.drop_first())
    }
}

/// The document name (the trimmed title), its lowercase slug, and its type (the name up
/// to the first `-`), if the document has a `# Title` line.
pub open spec fn spec_doc_meta(content: Seq<char>) -> Option<(Seq<char>, Seq<char>, Seq<char>)> {
    match first_title(lines(content)) {
        Some(l) => {
            let t = trim(l.skip(2));
            Some((t, str_lowercase(t), before_first(t, "-"@)))
        },
        None => None,
    }
}

/// Read `# Title` from the preamble and derive the document name, slug and type.
pub fn doc_meta(content: &str) -> (r: Option<DocMeta>)
    ensures
        match r {
            Some(m) => spec_doc_meta(content@) == Some(meta_view(m)),
            None => spec_doc_meta(content@) is None,
        },
{
    let ls = lines_exec(&chars_of(content));
    let mut i: usize = 0;
    proof {
        reveal_strlit("# ");
        assert(views(ls@).skip(0) =~= views(ls@));
    }
    while i < ls.len()
        invariant
            i <= ls.len(),
            first_title(lines(content@)) == first_title(views(ls@).skip(i as int)),
            views(ls@) == lines(content@),
        decreases ls.len() - i,
    {
        proof {
            reveal_strlit("# ");
        }
        let ghost rest = views(ls@).skip(i as int);
        assert(rest[0] == ls@[i as int]@);
        assert(rest.drop_first() =~= views(ls@).skip(i + 1));
        if starts_with_exec(&ls[i], "# ") {
            let l = &ls[i];
            let t = trim_exec(&slice_chars(l, 2, l.len()));
            assert(l@.subrange(2, l@.len() as int) =~= l@.skip(2));
            let slug = crate::text::lowercase(&t);
            let ty = before_first_exec(&t, "-");
            return Some(DocMeta { doc: string_of(&t), doc_slug: string_of(&slug), doctype: string_of(&ty) });
        }
        i += 1;
    }
    None
}

/// The remark blocks of a document: each `### ` heading line (without the marker) with
/// the lines up to the next heading. Lines before the first heading belong to none.
pub open spec fn blocks_fold(ls: Seq<Seq<char>>) -> Seq<(Seq<char>, Seq<Seq<char>>)>
    decreases ls.len(),
{
    if ls.len() == 0 {
        Seq::empty()
    } else {
        let prev = blocks_fold(ls.drop_last());
        let l = ls.last();
        if starts_with(l, "### "@) {
            prev.push((l.skip(4), Seq::empty()))
        } else if prev.len() > 0 {
            prev.update(prev.len() - 1, (prev.last().0, prev.last().1.push(l)))
        } else {
            prev
        }
    }
}

/// The blocks as text.
pub open spec fn block_views(v: Seq<(Vec<char>, Vec<Vec<char>>)>) -> Seq<(Seq<char>, Seq<Seq<char>>)> {
    v.map_values(|b: (Vec<char>, Vec<Vec<char>>)| (b.0@, views(b.1@)))
}

fn remark_blocks(content: &str) -> (r: Vec<(Vec<char>, Vec<Vec<char>>)>)
    ensures
        block_views(r@) == blocks_fold(lines(content@)),
{
    let ls = lines_exec(&chars_of(content));
    let mut blocks: Vec<(Vec<char>, Vec<Vec<char>>)> = Vec::new();
    let mut i: usize = 0;
    proof {
        reveal_strlit("### ");
    }
    while i < ls.len()
        invariant
            i <= ls.len(),
            views(ls@) == lines(content@),
            block_views(blocks@) == blocks_fold(views(ls@).take(i as int)),
        decreases ls.len() - i,
    {
        assert(views(ls@).take(i + 1).drop_last() =~= views(ls@).take(i as int));
        assert(views(ls@)[i as int] == ls@[i as int]@);
        let l = &ls[i];
        let ghost before = block_views(blocks@);
        proof {
            reveal_strlit("### ");
        }
        if starts_with_exec(l, "### ") {
            let h = slice_chars(l, 4, l.len());
            assert(h@ =~= l@.skip(4));
            let ghost b = blocks@;
            let empty: Vec<Vec<char>> = Vec::new();
            assert(views(empty@) =~= Seq::<Seq<char>>::empty());
            blocks.push((h, empty));
            assert(block_views(blocks@) =~= before.push((l@.skip(4), Seq::empty())));
        } else if blocks.len() > 0 {
            let last = blocks.len() - 1;
            let ghost ob = blocks@;
            let (h, mut body) = blocks.remove(last);
            assert(blocks@ =~= ob.drop_last());
            assert(before.last() == (h@, views(body@)));
            let ghost bv = views(body@);
            let c = copy_chars(l);
            body.push(c);
            assert(views(body@) =~= bv.push(l@));
            blocks.push((h, body));
            assert(block_views(blocks@) =~= block_views(ob.drop_last()).push((h@, bv.push(l@))));
            assert(block_views(blocks@) =~= before.update(
                before.len() - 1,
                (before.last().0, before.last().1.push(l@)),
            ));
        }
        i += 1;
    }
    assert(views(ls@).take(ls.len() as int) =~= views(ls@));
    blocks
}

// ---------------------------------------------------------------------------
// Headings
// ---------------------------------------------------------------------------

/// The text of the first `<span class="fac">…</span>` of a heading (empty if none).
pub open spec fn fac_text(heading: Seq<char>) -> Seq<char> {
    match first_hit(Pat::Delim(Delimiter::FacSpan), heading, 0) {
        Some(h) => content(heading, h),
        None => Seq::empty(),
    }
}

/// The unescaped labels of the links listed by `hs`.
pub open spec fn link_labels(s: Seq<char>, hs: Seq<Span>) -> Seq<Seq<char>>
    decreases hs.len(),
{
    if hs.len() == 0 {
        Seq::empty()
    } else {
        link_labels(s, hs.drop_last()).push(spec_unescape_label(content(s, hs.last())))
    }
}

/// The targets of the links listed by `hs`.
pub open spec fn link_targets(s: Seq<char>, hs: Seq<Span>) -> Seq<Seq<char>>
    decreases hs.len(),
{
    if hs.len() == 0 {
        Seq::empty()
    } else {
        link_targets(s, hs.drop_last()).push(target(s, hs.last()))
    }
}

/// The facsimile labels of a heading (brackets unescaped).
pub open spec fn fac_refs(heading: Seq<char>) -> Seq<Seq<char>> {
    let f = fac_text(heading);
    link_labels(f, hits(Pat::LinkLazy, f))
}

/// The facsimile image URLs of a heading.
pub open spec fn fac_urls(heading: Seq<char>) -> Seq<Seq<char>> {
    let f = fac_text(heading);
    link_targets(f, hits(Pat::LinkLazy, f))
}

fn parse_fac(heading: &[char]) -> (r: (Vec<Vec<char>>, Vec<Vec<char>>))
    ensures
        views(r.0@) == fac_refs(heading@),
        views(r.1@) == fac_urls(heading@),
{
    let f: Vec<char> = match first_hit_exec(&Pat::Delim(Delimiter::FacSpan), heading, 0) {
        Some(h) => slice_chars(heading, h.1, h.2),
        None => Vec::new(),
    };
    let hs = hits_exec(&Pat::LinkLazy, &f);
    let mut refs: Vec<Vec<char>> = Vec::new();
    let mut urls: Vec<Vec<char>> = Vec::new();
    let mut i: usize = 0;
    while i < hs.len()
        invariant
            i <= hs.len(),
            f@ == fac_text(heading@),
            svs(hs@) == hits(Pat::LinkLazy, f@),
            spans_within(hs@, f.len() as int),
            views(refs@) == link_labels(f@, svs(hs@).take(i as int)),
            views(urls@) == link_targets(f@, svs(hs@).take(i as int)),
        decreases hs.len() - i,
    {
        let h = hs[i];
        proof {
            assert(svs(hs@).take(i + 1).drop_last() =~= svs(hs@).take(i as int));
            assert(svs(hs@).take(i + 1).last() == crate::markup::sv(h));
        }
        let label = unescape_chars(&slice_chars(&f, h.1, h.2));
        let url = slice_chars(&f, h.3, h.4);
        let ghost r0 = refs@;
        let ghost u0 = urls@;
        refs.push(label);
        urls.push(url);
        assert(views(refs@) =~= views(r0).push(label@));
        assert(views(urls@) =~= views(u0).push(url@));
        i += 1;
    }
    assert(svs(hs@).take(hs.len() as int) =~= svs(hs@));
    (refs, urls)
}

/// `s` without its leading `/` characters.
pub open spec fn strip_slashes(s: Seq<char>) -> Seq<char>
    decreases s.len(),
{
    if s.len() > 0 && s[0] == '/' {
        strip_slashes(s.drop_first())
    } else {
        s
    }
}

/// The base work code of a work-file stem: its leading `W-` and letters, or the stem
/// itself (`W-RFM-3` gives `W-RFM`, `W-PG-1-App-4` gives `W-PG`).
pub open spec fn spec_work_code(stem: Seq<char>) -> Seq<char> {
    if starts_with(stem, "W-"@) && stem.len() > 2 && in_class(CharClass::AsciiLetter, stem[2]) {
        stem.subrange(0, run_end(stem, 2, CharClass::AsciiLetter))
    } else {
        stem
    }
}

/// The base work code for a Work-file stem.
pub fn work_code(stem: &str) -> (r: String)
    ensures
        r@ == spec_work_code(stem@),
{
    let s = chars_of(stem);
    proof {
        reveal_strlit("W-");
    }
    if starts_with_exec(&s, "W-") && s.len() > 2 && crate::text::in_class_exec(&CharClass::AsciiLetter, s[2]) {
        let e = run_end_exec(&s, 2, &CharClass::AsciiLetter);
        string_of(&slice_chars(&s, 0, e))
    } else {
        string_of(&s)
    }
}

/// The work link of a heading link with label `label` and target `t`: the target
/// without `.` and `+`, and the work code of its first path segment, uppercased.
pub open spec fn work_link_of(label: Seq<char>, t: Seq<char>) -> LinkView {
    let url = replace(replace(t, "."@, ""@), "+"@, ""@);
    let slug = before_first(strip_slashes(url), "/"@);
    (spec_work_code(str_uppercase(slug)), label, url)
}

/// The work links among the links listed by `hs`.
pub open spec fn work_links(s: Seq<char>, hs: Seq<Span>) -> Seq<LinkView>
    decreases hs.len(),
{
    if hs.len() == 0 {
        Seq::empty()
    } else {
        work_links(s, hs.drop_last()).push(work_link_of(content(s, hs.last()), target(s, hs.last())))
    }
}

/// The works a heading links to (`[label](/w-…)`).
pub open spec fn spec_parse_works(heading: Seq<char>) -> Seq<LinkView> {
    work_links(heading, hits(Pat::WorkLink, heading))
}

fn strip_slashes_exec(s: &[char]) -> (r: Vec<char>)
    ensures
        r@ == strip_slashes(s@),
{
    let mut i: usize = 0;
    assert(s@.skip(0) =~= s@);
    while i < s.len() && s[i] == '/'
        invariant
            i <= s.len(),
            strip_slashes(s@) == strip_slashes(s@.skip(i as int)),
        decreases s.len() - i,
    {
        assert(s@.skip(i as int).drop_first() =~= s@.skip(i + 1));
        i += 1;
    }
    let r = slice_chars(s, i, s.len());
    assert(r@ =~= s@.skip(i as int));
    r
}

/// Extract the works a remark is published in from its document heading: each link
/// `[label](/w-…)` gives the label, the link with `.` and `+` removed, and the work code.
pub fn parse_works(heading: &str) -> (r: Vec<WorkLink>)
    ensures
        link_views(r@) == spec_parse_works(heading@),
{
    let h = chars_of(heading);
    let hs = hits_exec(&Pat::WorkLink, &h);
    let mut out: Vec<WorkLink> = Vec::new();
    let mut i: usize = 0;
    proof {
        reveal_strlit(".");
        reveal_strlit("+");
    }
    while i < hs.len()
        invariant
            i <= hs.len(),
            h@ == heading@,
            svs(hs@) == hits(Pat::WorkLink, h@),
            spans_within(hs@, h.len() as int),
            link_views(out@) == work_links(h@, svs(hs@).take(i as int)),
        decreases hs.len() - i,
    {
        let sp = hs[i];
        proof {
            reveal_strlit(".");
            reveal_strlit("+");
            assert(svs(hs@).take(i + 1).drop_last() =~= svs(hs@).take(i as int));
            assert(svs(hs@).take(i + 1).last() == crate::markup::sv(sp));
        }
        let label = slice_chars(&h, sp.1, sp.2);
        let t = slice_chars(&h, sp.3, sp.4);
        let url = replace_exec(&replace_exec(&t, ".", ""), "+", "");
        let slug = before_first_exec(&strip_slashes_exec(&url), "/");
        let upper = crate::text::uppercase_of(&slug);
        let code = work_code(string_of(&upper).as_str());
        let w = WorkLink { code, label: string_of(&label), url: string_of(&url) };
        let ghost before = out@;
        out.push(w);
        assert(link_views(out@) =~= link_views(before).push(link_view(w)));
        i += 1;
    }
    assert(svs(hs@).take(hs.len() as int) =~= svs(hs@));
    out
}


// ---------------------------------------------------------------------------
// Remark bodies
// ---------------------------------------------------------------------------

/// The number of characters of `s` that are not white space, and whether all of them
/// are `-`, `*` or `_`.
pub open spec fn rule_scan(s: Seq<char>) -> (nat, bool)
    decreases s.len(),
{
    if s.len() == 0 {
        (0, true)
    } else {
        let (n, ok) = rule_scan(s.drop_last());
        let c = s.last();
        if white_space(c) {
            (n, ok)
        } else {
            (n + 1, ok && (c == '-' || c == '*' || c == '_'))
        }
    }
}

/// A horizontal rule: at least three characters besides white space, all `-`, `*` or `_`.
pub open spec fn is_rule(s: Seq<char>) -> bool {
    rule_scan(s).0 >= 3 && rule_scan(s).1
}

fn is_horizontal_rule(s: &[char]) -> (r: bool)
    ensures
        r == is_rule(s@),
{
    let mut n: usize = 0;
    let mut ok = true;
    let mut i: usize = 0;
    while i < s.len()
        invariant
            i <= s.len(),
            n <= i,
            (n as nat, ok) == rule_scan(s@.take(i as int)),
        decreases s.len() - i,
    {
        assert(s@.take(i + 1).drop_last() =~= s@.take(i as int));
        let c = s[i];
        if !crate::text::is_white_space(c) {
            n += 1;
            ok = ok && (c == '-' || c == '*' || c == '_');
        }
        i += 1;
    }
    assert(s@.take(s.len() as int) =~= s@);
    n >= 3 && ok
}

/// Whether `c` is an ASCII digit.
pub open spec fn ascii_digit(c: char) -> bool {
    '0' <= c && c <= '9'
}

/// The value of an ASCII digit.
pub open spec fn digit_value(c: char) -> nat {
    (c as int - '0' as int) as nat
}

/// A date line `DD.MM.YYYY`: its ISO form `YYYY-MM-DD` and the number `YYYYMMDD`.
pub open spec fn date_of(t: Seq<char>) -> Option<(Seq<char>, nat)> {
    if t.len() == 10 && ascii_digit(t[0]) && ascii_digit(t[1]) && t[2] == '.' && ascii_digit(t[3])
        && ascii_digit(t[4]) && t[5] == '.' && ascii_digit(t[6]) && ascii_digit(t[7])
        && ascii_digit(t[8]) && ascii_digit(t[9]) {
        Some(
            (
                t.subrange(6, 10) + "-"@ + t.subrange(3, 5) + "-"@ + t.subrange(0, 2),
                digit_value(t[6]) * 10000000 + digit_value(t[7]) * 1000000 + digit_value(t[8])
                    * 100000 + digit_value(t[9]) * 10000 + digit_value(t[3]) * 1000 + digit_value(
                    t[4],
                ) * 100 + digit_value(t[0]) * 10 + digit_value(t[1]),
            ),
        )
    } else {
        None
    }
}

fn digit_u64(c: char) -> (v: u64)
    requires
        ascii_digit(c),
    ensures
        v == digit_value(c),
        v <= 9,
{
    (c as u32 - '0' as u32) as u64
}

/// Parses a date line `DD.MM.YYYY` into its ISO form and sort key.
pub fn parse_date(t: &[char]) -> (r: Option<(String, u64)>)
    ensures
        match r {
            Some((iso, key)) => date_of(t@) == Some((iso@, key as nat)),
            None => date_of(t@) is None,
        },
{
    if t.len() != 10 {
        return None;
    }
    let ok = '0' <= t[0] && t[0] <= '9' && '0' <= t[1] && t[1] <= '9' && t[2] == '.' && '0' <= t[3]
        && t[3] <= '9' && '0' <= t[4] && t[4] <= '9' && t[5] == '.' && '0' <= t[6] && t[6] <= '9'
        && '0' <= t[7] && t[7] <= '9' && '0' <= t[8] && t[8] <= '9' && '0' <= t[9] && t[9] <= '9';
    if !ok {
        return None;
    }
    let mut iso = slice_chars(t, 6, 10);
    push_str(&mut iso, "-");
    push_all(&mut iso, &slice_chars(t, 3, 5));
    push_str(&mut iso, "-");
    push_all(&mut iso, &slice_chars(t, 0, 2));
    let key = digit_u64(t[6]) * 10000000 + digit_u64(t[7]) * 1000000 + digit_u64(t[8]) * 100000
        + digit_u64(t[9]) * 10000 + digit_u64(t[3]) * 1000 + digit_u64(t[4]) * 100 + digit_u64(t[0])
        * 10 + digit_u64(t[1]);
    assert(iso@ =~= t@.subrange(6, 10) + "-"@ + t@.subrange(3, 5) + "-"@ + t@.subrange(0, 2));
    Some((string_of(&iso), key))
}

/// A line is a date exactly when it has ten characters in the shape `DD.MM.YYYY`, with
/// any ASCII digit (zero included) in each of the eight digit places. Its ISO form is
/// then the year, the month and the day joined by hyphens, and its sort key is the
/// number `YYYYMMDD` that those eight digits spell.
pub proof fn lemma_date_line(t: Seq<char>)
    ensures
        date_of(t) is Some <==> (t.len() == 10 && t[2] == '.' && t[5] == '.' && forall|i: int|
            0 <= i < 10 && i != 2 && i != 5 ==> '0' <= #[trigger] t[i] && t[i] <= '9'),
        date_of(t) is Some ==> date_of(t) == Some(
            (
                seq![t[6], t[7], t[8], t[9], '-', t[3], t[4], '-', t[0], t[1]],
                (10000000 * (t[6] as int - 48) + 1000000 * (t[7] as int - 48) + 100000 * (
                t[8] as int - 48) + 10000 * (t[9] as int - 48) + 1000 * (t[3] as int - 48) + 100
                    * (t[4] as int - 48) + 10 * (t[0] as int - 48) + (t[1] as int - 48)) as nat,
            ),
        ),
{
    reveal_strlit("-");
    let shaped = t.len() == 10 && t[2] == '.' && t[5] == '.' && forall|i: int|
        0 <= i < 10 && i != 2 && i != 5 ==> '0' <= #[trigger] t[i] && t[i] <= '9';
    if shaped {
        assert('0' <= t[0] && t[0] <= '9');
        assert('0' <= t[1] && t[1] <= '9');
        assert('0' <= t[3] && t[3] <= '9');
        assert('0' <= t[4] && t[4] <= '9');
        assert('0' <= t[6] && t[6] <= '9');
        assert('0' <= t[7] && t[7] <= '9');
        assert('0' <= t[8] && t[8] <= '9');
        assert('0' <= t[9] && t[9] <= '9');
    }
    if date_of(t) is Some {
        assert forall|i: int| 0 <= i < 10 && i != 2 && i != 5 implies '0' <= #[trigger] t[i]
            && t[i] <= '9' by {
            if i == 0 {
            } else if i == 1 {
            } else if i == 3 {
            } else if i == 4 {
            } else if i == 6 {
            } else if i == 7 {
            } else if i == 8 {
            } else {
            }
        }
        assert(date_of(t).unwrap().0 =~= seq![t[6], t[7], t[8], t[9], '-', t[3], t[4], '-', t[0], t[1]]);
    }
}

/// Markdown and HTML reduced to plain searchable text: deletions, inline math and tags
/// dropped, bold markers removed, emphasis, links and reading variants replaced by
/// their text.
pub open spec fn strip_markup(text: Seq<char>) -> Seq<char> {
    unwrap_all(
        Pat::Variant,
        unwrap_all(
            Pat::MdLink,
            unwrap_all(
                Pat::Em,
                replace(
                    strip_all(Pat::Tag, strip_all(Pat::MathInline, strip_all(Pat::Strike, text))),
                    "**"@,
                    ""@,
                ),
            ),
        ),
    )
}

fn strip_markup_exec(text: &[char]) -> (r: Vec<char>)
    ensures
        r@ == strip_markup(text@),
{
    proof {
        reveal_strlit("**");
    }
    let a = strip_all_exec(&Pat::Strike, text);
    let b = strip_all_exec(&Pat::MathInline, &a);
    let c = strip_all_exec(&Pat::Tag, &b);
    let d = replace_exec(&c, "**", "");
    let e = unwrap_all_exec(&Pat::Em, &d);
    let f = unwrap_all_exec(&Pat::MdLink, &e);
    unwrap_all_exec(&Pat::Variant, &f)
}

/// The state while reading a body: date (ISO, key), series number, inside a display
/// math block, text so far.
pub type BodyState = (Option<(Seq<char>, nat)>, Option<Seq<char>>, bool, Seq<char>);

/// Reads one body line. Display math blocks, blank lines, headings, rules and image
/// lines are skipped; the first date line gives the date; otherwise the first series
/// number is kept, the series span removed, and the plain text appended.
pub open spec fn body_step(st: BodyState, raw: Seq<char>) -> BodyState {
    let (date, series, in_math, buf) = st;
    let t = trim(raw);
    if in_math {
        (date, series, !contains(t, "</math>"@), buf)
    } else if contains(t, "<math"@) && contains(t, "display=\"block\""@) && !contains(
        t,
        "</math>"@,
    ) {
        (date, series, true, buf)
    } else if t.len() == 0 || starts_with(t, "#"@) || is_rule(t) || starts_with(t, "!["@)
        || starts_with(t, "<img"@) {
        st
    } else if date is None && date_of(t) is Some {
        (date_of(t), series, in_math, buf)
    } else {
        let series2 = if series is None {
            match first_hit(Pat::Delim(Delimiter::SeriesNumber), raw, 0) {
                Some(h) => Some(trim(content(raw, h))),
                None => None,
            }
        } else {
            series
        };
        let stripped = trim(strip_markup(strip_all(Pat::Delim(Delimiter::SeriesNumber), raw)));
        (
            date,
            series2,
            in_math,
            if stripped.len() == 0 {
                buf
            } else if buf.len() == 0 {
                stripped
            } else {
                buf.push(' ') + stripped
            },
        )
    }
}

/// The state after reading the lines `ls`.
pub open spec fn body_fold(ls: Seq<Seq<char>>) -> BodyState
    decreases ls.len(),
{
    if ls.len() == 0 {
        (None, None, false, Seq::empty())
    } else {
        body_step(body_fold(ls.drop_last()), ls.last())
    }
}

/// The date, series number and content of a body; the content has its white-space runs
/// collapsed to single spaces and is trimmed.
pub open spec fn spec_parse_body(ls: Seq<Seq<char>>) -> (Option<(Seq<char>, nat)>, Option<Seq<char>>, Seq<char>) {
    let (date, series, _m, buf) = body_fold(ls);
    (date, series, trim(subst_all(Pat::Ws, " "@, buf)))
}

/// Extract the optional date, optional series number, and plain-text content from a body.
#[verifier::spinoff_prover]
#[verifier::rlimit(40)]
pub fn parse_body(lines: &Vec<Vec<char>>) -> (r: (Option<(String, u64)>, Option<String>, String))
    ensures
        (match r.0 {
            Some((iso, key)) => spec_parse_body(views(lines@)).0 == Some((iso@, key as nat)),
            None => spec_parse_body(views(lines@)).0 is None,
        }),
        opt_view(r.1) == spec_parse_body(views(lines@)).1,
        r.2@ == spec_parse_body(views(lines@)).2,
{
    let mut date: Option<(String, u64)> = None;
    let mut series: Option<String> = None;
    let mut in_math = false;
    let mut buf: Vec<char> = Vec::new();
    let mut i: usize = 0;
    while i < lines.len()
        invariant
            i <= lines.len(),
            ({
                let st = body_fold(views(lines@).take(i as int));
                &&& (match date {
                    Some((iso, key)) => st.0 == Some((iso@, key as nat)),
                    None => st.0 is None,
                })
                &&& opt_view(series) == st.1
                &&& in_math == st.2
                &&& buf@ == st.3
            }),
        decreases lines.len() - i,
    {
        proof {
            reveal_strlit("</math>");
            reveal_strlit("<math");
            reveal_strlit("display=\"block\"");
            reveal_strlit("#");
            reveal_strlit("![");
            reveal_strlit("<img");
        }
        assert(views(lines@).take(i + 1).drop_last() =~= views(lines@).take(i as int));
        assert(views(lines@)[i as int] == lines@[i as int]@);
        let raw = &lines[i];
        let t = trim_exec(raw);
        if in_math {
            if contains_exec(&t, "</math>") {
                in_math = false;
            }
        } else if contains_exec(&t, "<math") && contains_exec(&t, "display=\"block\"")
            && !contains_exec(&t, "</math>") {
            in_math = true;
        } else if t.len() == 0 || starts_with_exec(&t, "#") || is_horizontal_rule(&t)
            || starts_with_exec(&t, "![") || starts_with_exec(&t, "<img") {
        } else {
            let d = if date.is_none() {
                parse_date(&t)
            } else {
                None
            };
            if d.is_some() {
                date = d;
            } else {
                if series.is_none() {
                    match first_hit_exec(&Pat::Delim(Delimiter::SeriesNumber), raw, 0) {
                        Some(h) => {
                            let c = trim_exec(&slice_chars(raw, h.1, h.2));
                            series = Some(string_of(&c));
                        },
                        None => {},
                    }
                }
                let s = strip_all_exec(&Pat::Delim(Delimiter::SeriesNumber), raw);
                let stripped = trim_exec(&strip_markup_exec(&s));
                if stripped.len() > 0 {
                    if buf.len() > 0 {
                        buf.push(' ');
                    }
                    push_all(&mut buf, &stripped);
                }
            }
        }
        i += 1;
    }
    assert(views(lines@).take(lines.len() as int) =~= views(lines@));
    let content = trim_exec(&subst_all_exec(&Pat::Ws, " ", &buf));
    (date, series, string_of(&content))
}

// ---------------------------------------------------------------------------
// Whole files
// ---------------------------------------------------------------------------

/// How often an automatic fragment has been used so far: the last count recorded for
/// `key`, or 0.
pub open spec fn count_of(seen: Seq<(Seq<char>, nat)>, key: Seq<char>) -> nat
    decreases seen.len(),
{
    if seen.len() == 0 {
        0
    } else if seen.last().0 == key {
        seen.last().1
    } else {
        count_of(seen.drop_last(), key)
    }
}

/// The remark of a block with the given page references, image URLs and fragment.
pub open spec fn remark_of(
    heading: Seq<char>,
    body: Seq<Seq<char>>,
    refs: Seq<Seq<char>>,
    urls: Seq<Seq<char>>,
    frag: Seq<char>,
) -> RemarkView {
    let (date, series, content) = spec_parse_body(body);
    (
        refs,
        frag,
        if urls.len() > 0 {
            Some(urls[0])
        } else {
            None
        },
        match date {
            Some((iso, _k)) => Some(iso),
            None => None,
        },
        match date {
            Some((_iso, k)) => Some(k),
            None => None,
        },
        series,
        content,
        spec_parse_works(heading),
    )
}

/// Reads one block, given the remarks and the fragments used so far. A block without
/// facsimile references is skipped. An explicit `{#id}` is used as it is (and counts as
/// used once); otherwise the fragment is the slug of the joined references, with `-N`
/// appended when it was used `N >= 1` times before (a block whose slug is empty is
/// skipped).
pub open spec fn file_step(
    rs: Seq<RemarkView>,
    seen: Seq<(Seq<char>, nat)>,
    heading: Seq<char>,
    body: Seq<Seq<char>>,
) -> (Seq<RemarkView>, Seq<(Seq<char>, nat)>) {
    let refs = fac_refs(heading);
    let urls = fac_urls(heading);
    if refs.len() == 0 {
        (rs, seen)
    } else {
        match first_hit(Pat::ExplicitId, heading, 0) {
            Some(h) => {
                let id = content(heading, h);
                let c = count_of(seen, id);
                (
                    rs.push(remark_of(heading, body, refs, urls, id)),
                    seen.push(
                        (
                            id,
                            if c >= 1 {
                                c
                            } else {
                                1
                            },
                        ),
                    ),
                )
            },
            None => {
                let base = spec_github_slug(concat(refs));
                if base.len() == 0 {
                    (rs, seen)
                } else {
                    let c = count_of(seen, base);
                    let frag = if c == 0 {
                        base
                    } else {
                        base + "-"@ + decimal(c)
                    };
                    (rs.push(remark_of(heading, body, refs, urls, frag)), seen.push((base, c + 1)))
                }
            },
        }
    }
}

/// The remarks of the first `n` blocks, and the fragments used so far.
pub open spec fn file_fold(blocks: Seq<(Seq<char>, Seq<Seq<char>>)>, n: int) -> (Seq<RemarkView>, Seq<
    (Seq<char>, nat),
>)
    decreases n,
{
    if n <= 0 || n > blocks.len() {
        (Seq::empty(), Seq::empty())
    } else {
        let (rs, seen) = file_fold(blocks, n - 1);
        file_step(rs, seen, blocks[n - 1].0, blocks[n - 1].1)
    }
}

/// The metadata and remarks of a document, if it has a `# Title` line.
pub open spec fn spec_parse_file(content: Seq<char>) -> Option<((Seq<char>, Seq<char>, Seq<char>), Seq<RemarkView>)> {
    match spec_doc_meta(content) {
        Some(m) => {
            let blocks = blocks_fold(lines(content));
            Some((m, file_fold(blocks, blocks.len() as int).0))
        },
        None => None,
    }
}

fn count_of_exec(seen: &Vec<(Vec<char>, u64)>, key: &[char]) -> (r: u64)
    ensures
        r == count_of(seen@.map_values(|e: (Vec<char>, u64)| (e.0@, e.1 as nat)), key@),
{
    let ghost sv = seen@.map_values(|e: (Vec<char>, u64)| (e.0@, e.1 as nat));
    let mut j: usize = seen.len();
    assert(sv.take(j as int) =~= sv);
    while j > 0
        invariant
            j <= seen.len(),
            sv == seen@.map_values(|e: (Vec<char>, u64)| (e.0@, e.1 as nat)),
            count_of(sv, key@) == count_of(sv.take(j as int), key@),
        decreases j,
    {
        assert(sv.take(j as int).drop_last() =~= sv.take(j - 1));
        if crate::text::chars_eq(&seen[j - 1].0, key) {
            return seen[j - 1].1;
        }
        j -= 1;
    }
    0
}

fn opt_string(v: &Vec<Vec<char>>) -> (r: Option<String>)
    ensures
        opt_view(r) == (if v.len() > 0 {
            Some(v@[0]@)
        } else {
            None::<Seq<char>>
        }),
{
    if v.len() > 0 {
        Some(string_of(&v[0]))
    } else {
        None
    }
}

fn to_strings(v: &Vec<Vec<char>>) -> (r: Vec<String>)
    ensures
        string_views(r@) == views(v@),
{
    let mut out: Vec<String> = Vec::new();
    let mut i: usize = 0;
    while i < v.len()
        invariant
            i <= v.len(),
            string_views(out@) == views(v@).take(i as int),
        decreases v.len() - i,
    {
        let s = string_of(&v[i]);
        let ghost before = out@;
        out.push(s);
        assert(string_views(out@) =~= string_views(before).push(s@));
        assert(views(v@).take(i + 1) =~= views(v@).take(i as int).push(v@[i as int]@));
        i += 1;
    }
    assert(views(v@).take(v.len() as int) =~= views(v@));
    out
}

fn build_remark(heading: &Vec<char>, body: &Vec<Vec<char>>, refs: &Vec<Vec<char>>, urls: &Vec<Vec<char>>, frag: Vec<char>) -> (r: Remark)
    ensures
        remark_view(r) == remark_of(heading@, views(body@), views(refs@), views(urls@), frag@),
{
    let (date, series, content) = parse_body(body);
    let (d, k) = match date {
        Some((iso, key)) => (Some(iso), Some(key)),
        None => (None, None),
    };
    let r = Remark {
        page_refs: to_strings(refs),
        fragment: string_of(&frag),
        image_url: opt_string(urls),
        date: d,
        date_sort: k,
        series_number: series,
        content,
        works: parse_works(string_of(heading).as_str()),
    };
    r
}

/// The seen fragments as text.
pub open spec fn seen_view(seen: Seq<(Vec<char>, u64)>) -> Seq<(Seq<char>, nat)> {
    seen.map_values(|e: (Vec<char>, u64)| (e.0@, e.1 as nat))
}

#[verifier::rlimit(50)]
fn read_block(
    heading: &Vec<char>,
    body: &Vec<Vec<char>>,
    remarks: &mut Vec<Remark>,
    seen: &mut Vec<(Vec<char>, u64)>,
    i: usize,
)
    requires
        forall|k: int| 0 <= k < old(seen).len() ==> #[trigger] old(seen)@[k].1 <= i,
        i < u64::MAX,
    ensures
        (final(remarks)@.map_values(|x: Remark| remark_view(x)), seen_view(final(seen)@)) == file_step(
            old(remarks)@.map_values(|x: Remark| remark_view(x)),
            seen_view(old(seen)@),
            heading@,
            views(body@),
        ),
        forall|k: int| 0 <= k < final(seen).len() ==> #[trigger] final(seen)@[k].1 <= i + 1,
{
    let (refs, urls) = parse_fac(heading);
    let ghost sv0 = seen@;
    let ghost rv0 = remarks@;
    if refs.len() == 0 {
        return;
    }
    match first_hit_exec(&Pat::ExplicitId, heading, 0) {
        Some(h) => {
            let id = slice_chars(heading, h.1, h.2);
            let c = count_of_exec(seen, &id);
            proof {
                lemma_count_bound(seen_view(sv0), id@, i as nat);
            }
            let r = build_remark(heading, body, &refs, &urls, copy_chars(&id));
            remarks.push(r);
            let v: u64 = if c >= 1 {
                c
            } else {
                1
            };
            seen.push((id, v));
            assert(remarks@.map_values(|x: Remark| remark_view(x)) =~= rv0.map_values(
                |x: Remark| remark_view(x),
            ).push(remark_view(r)));
            assert(seen_view(seen@) =~= seen_view(sv0).push((id@, v as nat)));
            assert forall|k: int| 0 <= k < seen.len() implies #[trigger] seen@[k].1 <= i + 1 by {
                if k < sv0.len() {
                    assert(seen@[k] == sv0[k]);
                }
            }
        },
        None => {
            let joined = concat_exec(&refs);
            let base = chars_of(github_slug(string_of(&joined).as_str()).as_str());
            if base.len() > 0 {
                let c = count_of_exec(seen, &base);
                proof {
                    lemma_count_bound(seen_view(sv0), base@, i as nat);
                }
                let mut frag = copy_chars(&base);
                if c > 0 {
                    push_str(&mut frag, "-");
                    push_decimal(&mut frag, c);
                }
                let r = build_remark(heading, body, &refs, &urls, frag);
                remarks.push(r);
                assert(remarks@.map_values(|x: Remark| remark_view(x)) =~= rv0.map_values(
                    |x: Remark| remark_view(x),
                ).push(remark_view(r)));
                seen.push((base, c + 1));
                assert(seen_view(seen@) =~= seen_view(sv0).push((base@, (c + 1) as nat)));
                assert forall|k: int| 0 <= k < seen.len() implies #[trigger] seen@[k].1 <= i + 1 by {
                    if k < sv0.len() {
                        assert(seen@[k] == sv0[k]);
                    }
                }
            }
        },
    }
}

/// A count recorded in `seen` is at most the bound of all its entries.
proof fn lemma_count_bound(seen: Seq<(Seq<char>, nat)>, key: Seq<char>, b: nat)
    requires
        forall|k: int| 0 <= k < seen.len() ==> #[trigger] seen[k].1 <= b,
    ensures
        count_of(seen, key) <= b,
    decreases seen.len(),
{
    if seen.len() > 0 {
        assert(seen[seen.len() - 1].1 <= b);
        lemma_count_bound(seen.drop_last(), key, b);
    }
}

/// Parse one document or English file into its metadata and remarks; `None` for a file
/// without a `# Title` line. Remarks without facsimile references are skipped.
pub fn parse_file(content: &str) -> (r: Option<(DocMeta, Vec<Remark>)>)
    ensures
        match r {
            Some((m, rs)) => spec_parse_file(content@) == Some(
                (meta_view(m), rs@.map_values(|x: Remark| remark_view(x))),
            ),
            None => spec_parse_file(content@) is None,
        },
{
    let meta = match doc_meta(content) {
        Some(m) => m,
        None => {
            return None;
        },
    };
    let blocks = remark_blocks(content);
    let ghost bv = block_views(blocks@);
    let mut remarks: Vec<Remark> = Vec::new();
    let mut seen: Vec<(Vec<char>, u64)> = Vec::new();
    let mut i: usize = 0;
    while i < blocks.len()
        invariant
            i <= blocks.len(),
            bv == block_views(blocks@),
            remarks@.map_values(|x: Remark| remark_view(x)) == file_fold(bv, i as int).0,
            seen_view(seen@) == file_fold(bv, i as int).1,
            forall|k: int| 0 <= k < seen.len() ==> #[trigger] seen@[k].1 <= i,
        decreases blocks.len() - i,
    {
        let heading = &blocks[i].0;
        let body = &blocks[i].1;
        assert(bv[i as int] == (heading@, views(body@)));
        read_block(heading, body, &mut remarks, &mut seen, i);
        i += 1;
    }
    Some((meta, remarks))
}
} // verus!
