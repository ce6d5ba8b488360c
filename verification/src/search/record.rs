//! The records sent to the search engine.
use vstd::prelude::*;
use crate::search::parse::{meta_view, opt_view, remark_view, DocMeta, LinkView, Remark, RemarkView};
use crate::text::{
    chars_of, copy_chars, ends_with, replace, replace_exec, push_all, push_str, starts_with,
    starts_with_exec, string_of,
};
use crate::translate::common::string_views;

verus! {

/// One search document = one remark, in one language.
///
/// `id` is `{language}_{doc_slug}_{fragment}` (e.g. `de_ms-116_1321`): the engine accepts
/// only `[a-zA-Z0-9_-]` in ids, and no component holds `_`.
pub struct SearchRecord {
    pub id: String,
    /// `de` or `en`.
    pub language: String,
    /// Document name, e.g. `Ms-116`.
    pub doc: String,
    /// Lowercased document name = URL path segment, e.g. `ms-116`.
    pub doc_slug: String,
    /// `Ms` or `Ts`.
    pub doctype: String,
    /// Position in canonical document + page order.
    pub ord: u32,
    /// Facsimile page references as shown to readers, e.g. `["1[3]", "2[1]"]`.
    pub page_refs: Vec<String>,
    /// Heading anchor on the rendered page, e.g. `1321`.
    pub fragment: String,
    /// Deep link to the remark: `/ms-116/#1321` (de) or `/en/ms-116/#1321` (en).
    pub url: String,
    /// First facsimile image.
    pub image_url: Option<String>,
    /// ISO date the remark was written, e.g. `1914-08-10`, when present.
    pub date: Option<String>,
    /// `YYYYMMDD` as an integer.
    pub date_sort: Option<u64>,
    /// Published series number when the remark carries one, e.g. `1`, `1˙1`.
    pub series_number: Option<String>,
    /// Plain-text remark content.
    pub content: String,
    /// Works this remark was published in (empty if none).
    pub works: Vec<WorkLink>,
}

/// A work a remark appears in, with a deep link to the remark on the work's page.
pub struct WorkLink {
    /// Work-level code, e.g. `W-RFM` — used for filtering, not display.
    pub code: String,
    /// Display label exactly as the document pages show it, e.g. `RFM III`, `PI`.
    pub label: String,
    /// Deep link to the remark within the work, e.g. `/w-rfm-3/#ms-122-5r25v1`.
    pub url: String,
}

/// A work link as `(code, label, url)`.
pub open spec fn link_view(w: WorkLink) -> (Seq<char>, Seq<char>, Seq<char>) {
    (w.code@, w.label@, w.url@)
}

/// The views of work links.
pub open spec fn link_views(v: Seq<WorkLink>) -> Seq<(Seq<char>, Seq<char>, Seq<char>)> {
    v.map_values(|w: WorkLink| link_view(w))
}


/// A record as text: id, language, doc, doc slug, doc type, order, page references,
/// fragment, url, image, date, date key, series number, content, works.
pub type RecordView = (
    Seq<char>,
    Seq<char>,
    (Seq<char>, Seq<char>, Seq<char>),
    int,
    Seq<Seq<char>>,
    Seq<char>,
    Seq<char>,
    Option<Seq<char>>,
    Option<Seq<char>>,
    Option<nat>,
    Option<Seq<char>>,
    Seq<char>,
    Seq<LinkView>,
);

/// The view of a record.
pub open spec fn record_view(r: SearchRecord) -> RecordView {
    (
        r.id@,
        r.language@,
        (r.doc@, r.doc_slug@, r.doctype@),
        r.ord as int,
        string_views(r.page_refs@),
        r.fragment@,
        r.url@,
        opt_view(r.image_url),
        opt_view(r.date),
        match r.date_sort {
            Some(v) => Some(v as nat),
            None => None,
        },
        opt_view(r.series_number),
        r.content@,
        link_views(r.works@),
    )
}

/// The deep link of a remark: the template with `{slug}` and `{frag}` filled in.
pub open spec fn record_url(template: Seq<char>, slug: Seq<char>, frag: Seq<char>) -> Seq<char> {
    replace(replace(template, "{slug}"@, slug), "{frag}"@, frag)
}

/// The id of a record: `{language}_{doc_slug}_{fragment}`.
pub open spec fn record_id(language: Seq<char>, slug: Seq<char>, fragment: Seq<char>) -> Seq<char> {
    language + "_"@ + slug + "_"@ + fragment
}

/// No `_` in a text.
pub open spec fn no_underscore(s: Seq<char>) -> bool {
    forall|i: int| 0 <= i < s.len() ==> s[i] != '_'
}

/// The id of a record names its language, document and remark: as long as neither the
/// language nor the document slug holds `_`, two ids are equal only for the same
/// language, slug and fragment.
pub proof fn lemma_record_id_unambiguous(
    l1: Seq<char>,
    s1: Seq<char>,
    f1: Seq<char>,
    l2: Seq<char>,
    s2: Seq<char>,
    f2: Seq<char>,
)
    requires
        no_underscore(l1),
        no_underscore(s1),
        no_underscore(l2),
        no_underscore(s2),
        record_id(l1, s1, f1) == record_id(l2, s2, f2),
    ensures
        l1 == l2,
        s1 == s2,
        f1 == f2,
{
    reveal_strlit("_");
    let x = record_id(l1, s1, f1);
    assert(x == record_id(l2, s2, f2));
    // the first `_` ends the language
    if l1.len() < l2.len() {
        assert(x[l1.len() as int] == '_');
        assert(x[l1.len() as int] == l2[l1.len() as int]);
    } else if l2.len() < l1.len() {
        assert(x[l2.len() as int] == '_');
        assert(x[l2.len() as int] == l1[l2.len() as int]);
    }
    assert(l1.len() == l2.len());
    assert(l1 =~= x.take(l1.len() as int));
    assert(l2 =~= x.take(l2.len() as int));
    // the second `_` ends the slug
    let a: int = l1.len() as int + 1;
    if s1.len() < s2.len() {
        assert(x[a + s1.len()] == '_');
        assert(x[a + s1.len()] == s2[s1.len() as int]);
    } else if s2.len() < s1.len() {
        assert(x[a + s2.len()] == '_');
        assert(x[a + s2.len()] == s1[s2.len() as int]);
    }
    assert(s1.len() == s2.len());
    assert(s1 =~= x.subrange(a, a + s1.len() as int));
    assert(s2 =~= x.subrange(a, a + s2.len() as int));
    assert(f1 =~= x.skip(a + s1.len() as int + 1));
    assert(f2 =~= x.skip(a + s2.len() as int + 1));
}

/// The records of the remarks of one document with non-empty content, numbered from
/// `ord` on.
pub open spec fn records_fold(
    meta: (Seq<char>, Seq<char>, Seq<char>),
    rs: Seq<RemarkView>,
    language: Seq<char>,
    template: Seq<char>,
    ord: int,
) -> Seq<RecordView>
    decreases rs.len(),
{
    if rs.len() == 0 {
        Seq::empty()
    } else {
        let r = rs[0];
        if r.6.len() == 0 {
            records_fold(meta, rs.drop_first(), language, template, ord)
        } else {
            seq![
                (
                    record_id(language, meta.1, r.1),
                    language,
                    meta,
                    ord,
                    r.0,
                    r.1,
                    record_url(template, meta.1, r.1),
                    r.2,
                    r.3,
                    r.4,
                    r.5,
                    r.6,
                    r.7,
                ),
            ] + records_fold(meta, rs.drop_first(), language, template, ord + 1)
        }
    }
}

/// The records of a document are numbered in order: the `k`-th carries `ord + k`, so
/// that the numbers count the records across documents.
pub proof fn lemma_records_numbered(
    meta: (Seq<char>, Seq<char>, Seq<char>),
    rs: Seq<RemarkView>,
    language: Seq<char>,
    template: Seq<char>,
    ord: int,
)
    ensures
        records_fold(meta, rs, language, template, ord).len() == with_content(rs),
        forall|k: int|
            0 <= k < records_fold(meta, rs, language, template, ord).len() ==> (#[trigger] records_fold(
                meta,
                rs,
                language,
                template,
                ord,
            )[k]).3 == ord + k,
    decreases rs.len(),
{
    if rs.len() > 0 {
        lemma_records_numbered(meta, rs.drop_first(), language, template, ord);
        lemma_records_numbered(meta, rs.drop_first(), language, template, ord + 1);
        let all = records_fold(meta, rs, language, template, ord);
        if rs[0].6.len() > 0 {
            let rest = records_fold(meta, rs.drop_first(), language, template, ord + 1);
            assert forall|k: int| 0 <= k < all.len() implies (#[trigger] all[k]).3 == ord + k by {
                if k > 0 {
                    assert(all[k] == rest[k - 1]);
                }
            }
        }
    }
}

/// The number of remarks with content.
pub open spec fn with_content(rs: Seq<RemarkView>) -> nat
    decreases rs.len(),
{
    if rs.len() == 0 {
        0
    } else {
        with_content(rs.drop_first()) + if rs[0].6.len() > 0 {
            1nat
        } else {
            0nat
        }
    }
}

fn copy_string(s: &String) -> (r: String)
    ensures
        r@ == s@,
{
    string_of(&chars_of(s.as_str()))
}

fn copy_opt(o: &Option<String>) -> (r: Option<String>)
    ensures
        opt_view(r) == opt_view(*o),
{
    match o {
        Some(s) => Some(copy_string(s)),
        None => None,
    }
}

fn copy_strings(v: &Vec<String>) -> (r: Vec<String>)
    ensures
        string_views(r@) == string_views(v@),
{
    let mut out: Vec<String> = Vec::new();
    let mut i: usize = 0;
    while i < v.len()
        invariant
            i <= v.len(),
            string_views(out@) == string_views(v@).take(i as int),
        decreases v.len() - i,
    {
        let s = copy_string(&v[i]);
        let ghost before = out@;
        out.push(s);
        assert(string_views(out@) =~= string_views(before).push(s@));
        assert(string_views(v@).take(i + 1) =~= string_views(v@).take(i as int).push(v@[i as int]@));
        i += 1;
    }
    assert(string_views(v@).take(v.len() as int) =~= string_views(v@));
    out
}

fn copy_links(v: &Vec<WorkLink>) -> (r: Vec<WorkLink>)
    ensures
        link_views(r@) == link_views(v@),
{
    let mut out: Vec<WorkLink> = Vec::new();
    let mut i: usize = 0;
    while i < v.len()
        invariant
            i <= v.len(),
            link_views(out@) == link_views(v@).take(i as int),
        decreases v.len() - i,
    {
        let w = WorkLink { code: copy_string(&v[i].code), label: copy_string(&v[i].label), url: copy_string(&v[i].url) };
        let ghost before = out@;
        out.push(w);
        assert(link_views(out@) =~= link_views(before).push(link_view(w)));
        assert(link_views(v@).take(i + 1) =~= link_views(v@).take(i as int).push(link_view(v@[i as int])));
        i += 1;
    }
    assert(link_views(v@).take(v.len() as int) =~= link_views(v@));
    out
}

/// The search records of one parsed document, in order, for a language with the URL
/// template of its pages; `ord` counts the records across documents.
pub fn records_for_file(
    meta: &DocMeta,
    remarks: &[Remark],
    language: &str,
    url_template: &str,
    ord: &mut u32,
) -> (out: Vec<SearchRecord>)
    requires
        *old(ord) + remarks.len() <= u32::MAX,
    ensures
        out@.map_values(|r: SearchRecord| record_view(r)) == records_fold(
            meta_view(*meta),
            remarks@.map_values(|r: Remark| remark_view(r)),
            language@,
            url_template@,
            *old(ord) as int,
        ),
        *final(ord) == *old(ord) + with_content(remarks@.map_values(|r: Remark| remark_view(r))),
{
    let ghost rv = remarks@.map_values(|r: Remark| remark_view(r));
    let ghost o0 = *ord as int;
    let mut out: Vec<SearchRecord> = Vec::new();
    let mut i: usize = 0;
    proof {
        reveal_strlit("{slug}");
        reveal_strlit("{frag}");
        assert(rv.skip(0) =~= rv);
    }
    while i < remarks.len()
        invariant
            i <= remarks.len(),
            rv == remarks@.map_values(|r: Remark| remark_view(r)),
            *ord as int + (remarks.len() - i) <= u32::MAX,
            *ord as int <= o0 + i,
            out@.map_values(|r: SearchRecord| record_view(r)) + records_fold(meta_view(*meta), rv.skip(i as int), language@, url_template@, *ord as int)
                == records_fold(meta_view(*meta), rv, language@, url_template@, o0),
            *ord as int + with_content(rv.skip(i as int)) == o0 + with_content(rv),
        decreases remarks.len() - i,
    {
        proof {
            reveal_strlit("{slug}");
            reveal_strlit("{frag}");
        }
        let r = &remarks[i];
        let ghost rest = rv.skip(i as int);
        assert(rest[0] == remark_view(*r));
        assert(rest.drop_first() =~= rv.skip(i + 1));
        if chars_of(r.content.as_str()).len() > 0 {
            let url0 = replace_exec(&chars_of(url_template), "{slug}", meta.doc_slug.as_str());
            let url = replace_exec(&url0, "{frag}", r.fragment.as_str());
            let mut id = chars_of(language);
            push_str(&mut id, "_");
            push_str(&mut id, meta.doc_slug.as_str());
            push_str(&mut id, "_");
            push_str(&mut id, r.fragment.as_str());
            let rec = SearchRecord {
                id: string_of(&id),
                language: string_of(&chars_of(language)),
                doc: copy_string(&meta.doc),
                doc_slug: copy_string(&meta.doc_slug),
                doctype: copy_string(&meta.doctype),
                ord: *ord,
                page_refs: copy_strings(&r.page_refs),
                fragment: copy_string(&r.fragment),
                url: string_of(&url),
                image_url: copy_opt(&r.image_url),
                date: copy_opt(&r.date),
                date_sort: r.date_sort,
                series_number: copy_opt(&r.series_number),
                content: copy_string(&r.content),
                works: copy_links(&r.works),
            };
            let ghost before = out@;
            out.push(rec);
            assert(out@.map_values(|r: SearchRecord| record_view(r)) =~= before.map_values(
                |r: SearchRecord| record_view(r),
            ).push(record_view(rec)));
            *ord = *ord + 1;
        }
        i += 1;
    }
    out
}

/// Whether every character of an id is an ASCII letter or digit, `-` or `_` (the only
/// ones the search engine accepts).
pub open spec fn valid_id(id: Seq<char>) -> bool {
    forall|k: int|
        0 <= k < id.len() ==> ('a' <= #[trigger] id[k] <= 'z') || ('A' <= id[k] <= 'Z') || ('0' <= id[k]
            <= '9') || id[k] == '-' || id[k] == '_'
}

/// The first record whose id the search engine would refuse.
pub fn first_invalid_id(records: &[SearchRecord]) -> (r: Option<usize>)
    ensures
        match r {
            Some(i) => i < records.len() && !valid_id(records@[i as int].id@) && forall|k: int|
                0 <= k < i ==> valid_id(#[trigger] records@[k].id@),
            None => forall|k: int| 0 <= k < records.len() ==> valid_id(#[trigger] records@[k].id@),
        },
{
    let mut i: usize = 0;
    while i < records.len()
        invariant
            i <= records.len(),
            forall|k: int| 0 <= k < i ==> valid_id(#[trigger] records@[k].id@),
        decreases records.len() - i,
    {
        let id = chars_of(records[i].id.as_str());
        let mut j: usize = 0;
        let mut ok = true;
        while j < id.len()
            invariant
                j <= id.len(),
                ok == (forall|k: int| 0 <= k < j ==> ('a' <= #[trigger] id@[k] <= 'z') || ('A' <= id@[k] <= 'Z') || ('0' <= id@[k] <= '9') || id@[k] == '-' || id@[k] == '_'),
            decreases id.len() - j,
        {
            let c = id[j];
            if !(('a' <= c && c <= 'z') || ('A' <= c && c <= 'Z') || ('0' <= c && c <= '9') || c == '-' || c == '_') {
                ok = false;
            }
            j += 1;
        }
        if !ok {
            return Some(i);
        }
        i += 1;
    }
    None
}

/// The files of a directory that are not indexed although they are Markdown.
pub open spec fn skipped_page(name: Seq<char>) -> bool {
    name == "index.md"@ || name == "all.md"@ || name == "docs-by-date.md"@ || name == "docs-by-name.md"@
        || name == "deepl-remarks.md"@ || name == "about.md"@
}

/// Whether a file is an indexable document: a `.md` file that is no work (`W-…`) and
/// no aggregate or navigation page.
pub open spec fn spec_indexable(name: Seq<char>) -> bool {
    ends_with(name, ".md"@) && !starts_with(name, "W-"@) && !skipped_page(name)
}

/// Whether a file is an indexable document.
pub fn is_indexable(name: &str) -> (r: bool)
    ensures
        r == spec_indexable(name@),
{
    let n = chars_of(name);
    let skip = crate::text::chars_eq(&n, &chars_of("index.md")) || crate::text::chars_eq(&n, &chars_of("all.md"))
        || crate::text::chars_eq(&n, &chars_of("docs-by-date.md")) || crate::text::chars_eq(&n, &chars_of("docs-by-name.md"))
        || crate::text::chars_eq(&n, &chars_of("deepl-remarks.md")) || crate::text::chars_eq(&n, &chars_of("about.md"));
    crate::text::ends_with_exec(&n, &chars_of(".md")) && !starts_with_exec(&n, "W-") && !skip
}

/// The value of a run of ASCII digits.
pub open spec fn digits_value(s: Seq<char>) -> nat
    decreases s.len(),
{
    if s.len() == 0 {
        0
    } else {
        digits_value(s.drop_last()) * 10 + crate::search::parse::digit_value(s.last())
    }
}

/// The sort key of a document file stem: the part before the first `-`, the number of
/// the ASCII digits after it (0 if there are none or it exceeds `u64`), and the rest
/// (`Ms-227a` gives `("Ms", 227, "a")`).
pub open spec fn spec_doc_order_key(stem: Seq<char>) -> (Seq<char>, nat, Seq<char>) {
    let (prefix, rest) = match crate::text::find_char(stem, '-', 0) {
        Some(j) => (stem.subrange(0, j), stem.subrange(j + 1, stem.len() as int)),
        None => (stem, Seq::empty()),
    };
    let d = crate::text::run_end(rest, 0, crate::text::CharClass::AsciiDigit);
    let v = digits_value(rest.subrange(0, d));
    (prefix, if d > 0 && v <= u64::MAX {
        v
    } else {
        0
    }, rest.subrange(d, rest.len() as int))
}

/// Sort key for a document file stem: Ms before Ts, numeric order within a prefix,
/// suffixed documents after the plain one.
pub fn doc_order_key(stem: &str) -> (r: (String, u64, String))
    ensures
        (r.0@, r.1 as nat, r.2@) == spec_doc_order_key(stem@),
{
    let s = chars_of(stem);
    proof {
        crate::text::lemma_find_char(s@, '-', 0);
    }
    let (prefix, rest): (Vec<char>, Vec<char>) = match crate::text::find_char_exec(&s, '-', 0) {
        Some(j) => (crate::text::slice_chars(&s, 0, j), crate::text::slice_chars(&s, j + 1, s.len())),
        None => (copy_chars(&s), Vec::new()),
    };
    let d = crate::text::run_end_exec(&rest, 0, &crate::text::CharClass::AsciiDigit);
    proof {
        crate::text::lemma_run_end_in_class(rest@, 0, crate::text::CharClass::AsciiDigit);
    }
    let mut v: u128 = 0;
    let mut over = false;
    let mut i: usize = 0;
    while i < d
        invariant
            i <= d <= rest.len(),
            d == crate::text::run_end(rest@, 0, crate::text::CharClass::AsciiDigit),
            forall|k: int| 0 <= k < d ==> crate::search::parse::ascii_digit(#[trigger] rest@[k]),
            !over ==> v == digits_value(rest@.subrange(0, i as int)) && v <= u64::MAX,
            over ==> digits_value(rest@.subrange(0, i as int)) > u64::MAX,
        decreases d - i,
    {
        assert(rest@.subrange(0, i + 1).drop_last() =~= rest@.subrange(0, i as int));
        let c = rest[i];
        assert(crate::search::parse::ascii_digit(c));
        let dv = (c as u32 - '0' as u32) as u128;
        if !over {
            let nv = v * 10 + dv;
            if nv > u64::MAX as u128 {
                over = true;
            } else {
                v = nv;
            }
        } else {
            proof {
                assert(digits_value(rest@.subrange(0, i + 1)) >= digits_value(rest@.subrange(0, i as int)) * 10);
            }
        }
        i += 1;
    }
    let num: u64 = if d > 0 && !over {
        v as u64
    } else {
        0
    };
    (string_of(&prefix), num, string_of(&crate::text::slice_chars(&rest, d, rest.len())))
}

/// The rendered page of a record below the site's public directory, and the key it is
/// tallied under: `en/{slug}` for English records, `{slug}` for the others.
pub open spec fn spec_page_key(language: Seq<char>, slug: Seq<char>) -> Seq<char> {
    if language == "en"@ {
        "en/"@ + slug
    } else {
        slug
    }
}

/// The key of the rendered page a record points at (`en/{slug}` or `{slug}`).
pub fn page_key(record: &SearchRecord) -> (r: String)
    ensures
        r@ == spec_page_key(record.language@, record.doc_slug@),
{
    let mut out: Vec<char> = Vec::new();
    if crate::text::chars_eq(&chars_of(record.language.as_str()), &chars_of("en")) {
        push_str(&mut out, "en/");
    }
    push_str(&mut out, record.doc_slug.as_str());
    proof {
        if record.language@ != "en"@ {
            assert(out@ =~= record.doc_slug@);
        }
    }
    string_of(&out)
}

/// The file of the rendered page a record points at, relative to the public directory.
pub fn rendered_page(record: &SearchRecord) -> (r: String)
    ensures
        r@ == spec_page_key(record.language@, record.doc_slug@) + "/index.html"@,
{
    let mut out = chars_of(page_key(record).as_str());
    push_str(&mut out, "/index.html");
    string_of(&out)
}

/// Whether a rendered page carries an element with the id `fragment`.
pub fn has_anchor(html: &str, fragment: &str) -> (r: bool)
    ensures
        r == crate::text::contains(html@, "id=\""@ + fragment@ + "\""@),
{
    let mut pat = chars_of("id=\"");
    push_str(&mut pat, fragment);
    push_str(&mut pat, "\"");
    crate::text::find_from_exec(&chars_of(html), &pat, 0).is_some()
}

/// The number of records in German, in English, with a date and with a work.
pub open spec fn record_counts(rs: Seq<RecordView>) -> (nat, nat, nat, nat)
    decreases rs.len(),
{
    if rs.len() == 0 {
        (0, 0, 0, 0)
    } else {
        let (de, en, d, w) = record_counts(rs.drop_last());
        let r = rs.last();
        (
            de + if r.1 == "de"@ { 1nat } else { 0nat },
            en + if r.1 == "en"@ { 1nat } else { 0nat },
            d + if r.8 is Some { 1nat } else { 0nat },
            w + if r.12.len() > 0 { 1nat } else { 0nat },
        )
    }
}

/// Count the records in German, in English, with a date and with a work.
pub fn count_records(records: &[SearchRecord]) -> (r: (usize, usize, usize, usize))
    ensures
        (r.0 as nat, r.1 as nat, r.2 as nat, r.3 as nat) == record_counts(
            records@.map_values(|x: SearchRecord| record_view(x)),
        ),
{
    let ghost rv = records@.map_values(|x: SearchRecord| record_view(x));
    let (mut de, mut en, mut d, mut w): (usize, usize, usize, usize) = (0, 0, 0, 0);
    let mut i: usize = 0;
    while i < records.len()
        invariant
            i <= records.len(),
            rv == records@.map_values(|x: SearchRecord| record_view(x)),
            (de as nat, en as nat, d as nat, w as nat) == record_counts(rv.take(i as int)),
            de <= i && en <= i && d <= i && w <= i,
        decreases records.len() - i,
    {
        proof {
            assert(rv.take(i + 1).drop_last() =~= rv.take(i as int));
        }
        let r = &records[i];
        assert(rv[i as int] == record_view(*r));
        let l = chars_of(r.language.as_str());
        if crate::text::chars_eq(&l, &chars_of("de")) {
            de += 1;
        }
        if crate::text::chars_eq(&l, &chars_of("en")) {
            en += 1;
        }
        if r.date.is_some() {
            d += 1;
        }
        if r.works.len() > 0 {
            assert(link_views(r.works@).len() == r.works@.len());
            w += 1;
        } else {
            assert(link_views(r.works@).len() == 0);
        }
        i += 1;
    }
    assert(rv.take(records.len() as int) =~= rv);
    (de, en, d, w)
}
} // verus!
