//! Preparing a document, or a book of several parts, as Markdown for the PDF renderer.
use vstd::prelude::*;
use crate::markup::{content, hits, hits_exec, spans_within, svs, target, Pat, Span, FAC_OPEN};
use crate::search::slug::{spec_unescape_label, unescape_chars};
use crate::text::{
    after_first, after_first_exec, before_first, before_first_exec, chars_of, contains, contains_exec,
    copy_chars, find_char, find_char_exec, find_from, find_from_exec, join, join_exec, lines,
    lemma_find_from, lines_exec, matches_at, matches_at_exec, push_all, push_str, replace, replace_exec, slice_chars,
    starts_with, starts_with_exec, string_of, trim, trim_exec, views,
};

verus! {

/// Markdown ready for the renderer, with its title.
pub struct PreparedMarkdown {
    pub title: String,
    pub content: String,
}

// ---------------------------------------------------------------------------
// Index files
// ---------------------------------------------------------------------------

/// Whether an index file lists parts: after its `<details>` block, a line starting with
/// `- [` holds `](/`. Lines from one containing `<details` up to one containing
/// `</details>` are skipped.
pub open spec fn index_scan(ls: Seq<Seq<char>>, i: int, past: bool, inside: bool) -> bool
    decreases ls.len() - i,
{
    if i < 0 || i >= ls.len() {
        false
    } else {
        let l = ls[i];
        let inside1 = inside || contains(l, "<details"@);
        if contains(l, "</details>"@) {
            index_scan(ls, i + 1, true, false)
        } else if inside1 {
            index_scan(ls, i + 1, past, inside1)
        } else if past && starts_with(l, "- ["@) && contains(l, "](/"@) {
            true
        } else {
            index_scan(ls, i + 1, past, inside1)
        }
    }
}

/// Check if a Markdown file is an index file (has bullet-point links to parts).
pub fn is_index_file(raw: &str) -> (r: bool)
    ensures
        r == index_scan(lines(raw@), 0, false, false),
{
    let ls = lines_exec(&chars_of(raw));
    let mut past = false;
    let mut inside = false;
    let mut i: usize = 0;
    while i < ls.len()
        invariant
            i <= ls.len(),
            views(ls@) == lines(raw@),
            index_scan(lines(raw@), 0, false, false) == index_scan(views(ls@), i as int, past, inside),
        decreases ls.len() - i,
    {
        let l = &ls[i];
        assert(views(ls@)[i as int] == l@);
        if contains_exec(l, "<details") {
            inside = true;
        }
        if contains_exec(l, "</details>") {
            inside = false;
            past = true;
        } else if inside {
        } else if past && starts_with_exec(l, "- [") && contains_exec(l, "](/") {
            return true;
        }
        i += 1;
    }
    false
}

/// An index bullet `- [label](/slug/)` whose link closes at `q` (the `](/` there):
/// the end of its slug.
pub open spec fn part_link_at(s: Seq<char>, q: int) -> Option<int> {
    if matches_at(s, "](/"@, q) {
        match find_char(s, '/', q + 3) {
            Some(k) => if k > q + 3 && k + 1 < s.len() && s[k + 1] == ')' {
                Some(k)
            } else {
                None
            },
            None => None,
        }
    } else {
        None
    }
}

/// The last `q` with `3 <= q < hi` where a part link closes, with the end of its slug.
pub open spec fn last_part_link(s: Seq<char>, hi: int) -> Option<(int, int)>
    decreases hi,
{
    if hi <= 3 {
        None
    } else {
        match part_link_at(s, hi - 1) {
            Some(k) => Some((hi - 1, k)),
            None => last_part_link(s, hi - 1),
        }
    }
}

/// The part slug of an index line `- [… ](/slug/)`: the link that closes last.
pub open spec fn index_part(l: Seq<char>) -> Option<Seq<char>> {
    if starts_with(l, "- ["@) {
        match last_part_link(l, l.len() as int) {
            Some((q, k)) => Some(l.subrange(q + 3, k)),
            None => None,
        }
    } else {
        None
    }
}

/// The part slugs of the index lines among `ls`.
pub open spec fn index_parts(ls: Seq<Seq<char>>) -> Seq<Seq<char>>
    decreases ls.len(),
{
    if ls.len() == 0 {
        Seq::empty()
    } else {
        let prev = index_parts(ls.drop_last());
        match index_part(ls.last()) {
            Some(p) => prev.push(p),
            None => prev,
        }
    }
}

fn part_link_at_exec(s: &[char], q: usize) -> (r: Option<usize>)
    ensures
        r matches Some(k) ==> part_link_at(s@, q as int) == Some(k as int) && q + 3 < k < s.len(),
        r is None ==> part_link_at(s@, q as int) is None,
{
    proof {
        reveal_strlit("](/");
    }
    let m = chars_of("](/");
    if !matches_at_exec(s, &m, q) {
        return None;
    }
    assert(m@.len() == 3);
    assert(q + 3 <= s.len());
    proof {
        crate::text::lemma_find_char(s@, '/', q + 3);
    }
    match find_char_exec(s, '/', q + 3) {
        Some(k) => if k > q + 3 && k + 1 < s.len() && s[k + 1] == ')' {
            Some(k)
        } else {
            None
        },
        None => None,
    }
}

fn index_part_exec(l: &[char]) -> (r: Option<Vec<char>>)
    ensures
        match r {
            Some(p) => index_part(l@) == Some(p@),
            None => index_part(l@) is None,
        },
{
    if !starts_with_exec(l, "- [") {
        return None;
    }
    let mut hi: usize = l.len();
    while hi > 3
        invariant
            hi <= l.len(),
            starts_with(l@, "- ["@),
            last_part_link(l@, l.len() as int) == last_part_link(l@, hi as int),
        decreases hi,
    {
        match part_link_at_exec(l, hi - 1) {
            Some(k) => {
                assert(last_part_link(l@, hi as int) == Some(((hi - 1) as int, k as int)));
                let p = slice_chars(l, hi - 1 + 3, k);
                assert(p@ =~= l@.subrange(hi - 1 + 3, k as int));
                return Some(p);
            },
            None => {},
        }
        hi -= 1;
    }
    None
}

/// Parse part slugs from an index file's bullet-point links (`w-rfm-1`, …).
pub fn parse_index_parts(raw: &str) -> (r: Vec<String>)
    ensures
        crate::translate::common::string_views(r@) == index_parts(lines(raw@)),
{
    let ls = lines_exec(&chars_of(raw));
    let mut out: Vec<String> = Vec::new();
    let mut i: usize = 0;
    while i < ls.len()
        invariant
            i <= ls.len(),
            views(ls@) == lines(raw@),
            crate::translate::common::string_views(out@) == index_parts(views(ls@).take(i as int)),
        decreases ls.len() - i,
    {
        assert(views(ls@).take(i + 1).drop_last() =~= views(ls@).take(i as int));
        assert(views(ls@)[i as int] == ls@[i as int]@);
        match index_part_exec(&ls[i]) {
            Some(p) => {
                let s = string_of(&p);
                let ghost before = out@;
                out.push(s);
                assert(crate::translate::common::string_views(out@)
                    =~= crate::translate::common::string_views(before).push(s@));
            },
            None => {},
        }
        i += 1;
    }
    assert(views(ls@).take(ls.len() as int) =~= views(ls@));
    out
}

// ---------------------------------------------------------------------------
// Headings
// ---------------------------------------------------------------------------

/// The links of `s` as `(text, url)`, their texts unescaped.
pub open spec fn links_of(s: Seq<char>, hs: Seq<Span>) -> Seq<(Seq<char>, Seq<char>)>
    decreases hs.len(),
{
    if hs.len() == 0 {
        Seq::empty()
    } else {
        links_of(s, hs.drop_last()).push(
            (spec_unescape_label(content(s, hs.last())), target(s, hs.last())),
        )
    }
}

/// The links of a text (`[text](url)`, text with backslash escapes).
pub open spec fn collect_links(s: Seq<char>) -> Seq<(Seq<char>, Seq<char>)> {
    links_of(s, hits(Pat::LinkEsc, s))
}

/// A link as HTML.
pub open spec fn anchor_html(l: (Seq<char>, Seq<char>)) -> Seq<char> {
    "<a href=\""@ + l.1 + "\">"@ + l.0 + "</a>"@
}

/// The links as HTML joined by `sep`.
pub open spec fn links_html(ls: Seq<(Seq<char>, Seq<char>)>, sep: Seq<char>) -> Seq<char> {
    join(ls.map_values(|l: (Seq<char>, Seq<char>)| anchor_html(l)), sep)
}

/// The separator between facsimile pages: an ampersand and a line break.
pub open spec fn page_sep() -> Seq<char> {
    "&nbsp;&amp;<br>"@
}

/// A `### ` heading as HTML: the work or document links before the facsimile span
/// joined by `, `, a line break, and the facsimile links joined by an ampersand and a
/// line break; a heading without the span has only facsimile links. `None` for other
/// lines and for headings without links.
pub open spec fn spec_convert_h3(line: Seq<char>) -> Option<Seq<char>> {
    if !starts_with(line, "### "@) {
        None
    } else {
        let rest = line.skip(4);
        match find_from(rest, FAC_OPEN@, 0) {
            Some(p) => {
                let prefix = rest.subrange(0, p);
                let after = rest.skip(p + FAC_OPEN@.len());
                let fac = before_first(after, "</span>"@);
                let pl = collect_links(prefix);
                let fl = collect_links(fac);
                if pl.len() == 0 && fl.len() == 0 {
                    None
                } else {
                    Some(
                        "<h3>"@ + links_html(pl, ", "@) + (if pl.len() > 0 && fl.len() > 0 {
                            "<br>"@
                        } else {
                            Seq::empty()
                        }) + links_html(fl, page_sep()) + "</h3>"@,
                    )
                }
            },
            None => {
                let ls = collect_links(rest);
                if ls.len() == 0 {
                    None
                } else {
                    Some("<h3>"@ + links_html(ls, page_sep()) + "</h3>"@)
                }
            },
        }
    }
}

fn collect_links_exec(s: &[char]) -> (r: Vec<(Vec<char>, Vec<char>)>)
    ensures
        r@.map_values(|l: (Vec<char>, Vec<char>)| (l.0@, l.1@)) == collect_links(s@),
{
    let hs = hits_exec(&Pat::LinkEsc, s);
    let mut out: Vec<(Vec<char>, Vec<char>)> = Vec::new();
    let mut i: usize = 0;
    while i < hs.len()
        invariant
            i <= hs.len(),
            svs(hs@) == hits(Pat::LinkEsc, s@),
            spans_within(hs@, s.len() as int),
            out@.map_values(|l: (Vec<char>, Vec<char>)| (l.0@, l.1@)) == links_of(
                s@,
                svs(hs@).take(i as int),
            ),
        decreases hs.len() - i,
    {
        let h = hs[i];
        proof {
            assert(svs(hs@).take(i + 1).drop_last() =~= svs(hs@).take(i as int));
            assert(svs(hs@).take(i + 1).last() == crate::markup::sv(h));
        }
        let text = unescape_chars(&slice_chars(s, h.1, h.2));
        let url = slice_chars(s, h.3, h.4);
        let ghost before = out@;
        let ghost pair = (text@, url@);
        out.push((text, url));
        assert(out@.map_values(|l: (Vec<char>, Vec<char>)| (l.0@, l.1@)) =~= before.map_values(
            |l: (Vec<char>, Vec<char>)| (l.0@, l.1@),
        ).push(pair));
        i += 1;
    }
    assert(svs(hs@).take(hs.len() as int) =~= svs(hs@));
    out
}

fn links_html_exec(ls: &Vec<(Vec<char>, Vec<char>)>, sep: &str) -> (r: Vec<char>)
    ensures
        r@ == links_html(ls@.map_values(|l: (Vec<char>, Vec<char>)| (l.0@, l.1@)), sep@),
{
    let ghost lv = ls@.map_values(|l: (Vec<char>, Vec<char>)| (l.0@, l.1@));
    let mut parts: Vec<Vec<char>> = Vec::new();
    let mut i: usize = 0;
    while i < ls.len()
        invariant
            i <= ls.len(),
            lv == ls@.map_values(|l: (Vec<char>, Vec<char>)| (l.0@, l.1@)),
            views(parts@) == lv.take(i as int).map_values(|l: (Seq<char>, Seq<char>)| anchor_html(l)),
        decreases ls.len() - i,
    {
        let mut a = chars_of("<a href=\"");
        push_all(&mut a, &ls[i].1);
        push_str(&mut a, "\">");
        push_all(&mut a, &ls[i].0);
        push_str(&mut a, "</a>");
        let ghost before = parts@;
        assert(a@ =~= anchor_html(lv[i as int]));
        parts.push(a);
        assert(views(parts@) =~= views(before).push(a@));
        assert(lv.take(i + 1).map_values(|l: (Seq<char>, Seq<char>)| anchor_html(l)) =~= lv.take(
            i as int,
        ).map_values(|l: (Seq<char>, Seq<char>)| anchor_html(l)).push(anchor_html(lv[i as int])));
        i += 1;
    }
    assert(lv.take(ls.len() as int) =~= lv);
    join_exec(&parts, &chars_of(sep))
}

/// Convert a `### ` heading line to HTML (see `spec_convert_h3`).
pub fn convert_h3(line: &str) -> (r: Option<String>)
    ensures
        match r {
            Some(h) => spec_convert_h3(line@) == Some(h@),
            None => spec_convert_h3(line@) is None,
        },
{
    let l = chars_of(line);
    proof {
        reveal_strlit("### ");
    }
    if !starts_with_exec(&l, "### ") {
        return None;
    }
    let rest = slice_chars(&l, 4, l.len());
    assert(rest@ =~= l@.skip(4));
    let open = chars_of(FAC_OPEN);
    match find_from_exec(&rest, &open, 0) {
        Some(p) => {
            proof {
                crate::text::lemma_find_from(rest@, open@, 0);
            }
            let prefix = slice_chars(&rest, 0, p);
            let after = slice_chars(&rest, p + open.len(), rest.len());
            assert(after@ =~= rest@.skip(p + FAC_OPEN@.len()));
            let fac = before_first_exec(&after, "</span>");
            let pl = collect_links_exec(&prefix);
            let fl = collect_links_exec(&fac);
            if pl.len() == 0 && fl.len() == 0 {
                return None;
            }
            let mut html = chars_of("<h3>");
            push_all(&mut html, &links_html_exec(&pl, ", "));
            if pl.len() > 0 && fl.len() > 0 {
                push_str(&mut html, "<br>");
            }
            push_all(&mut html, &links_html_exec(&fl, "&nbsp;&amp;<br>"));
            push_str(&mut html, "</h3>");
            proof {
                let pv = pl@.map_values(|l: (Vec<char>, Vec<char>)| (l.0@, l.1@));
                let fv = fl@.map_values(|l: (Vec<char>, Vec<char>)| (l.0@, l.1@));
                assert(html@ =~= "<h3>"@ + links_html(pv, ", "@) + (if pv.len() > 0 && fv.len() > 0 {
                    "<br>"@
                } else {
                    Seq::empty()
                }) + links_html(fv, page_sep()) + "</h3>"@);
            }
            Some(string_of(&html))
        },
        None => {
            let ls = collect_links_exec(&rest);
            if ls.len() == 0 {
                return None;
            }
            let mut html = chars_of("<h3>");
            push_all(&mut html, &links_html_exec(&ls, "&nbsp;&amp;<br>"));
            push_str(&mut html, "</h3>");
            Some(string_of(&html))
        },
    }
}


// ---------------------------------------------------------------------------
// Bodies
// ---------------------------------------------------------------------------

/// Text safe inside a double-quoted YAML string.
pub open spec fn yaml_escape(s: Seq<char>) -> Seq<char> {
    replace(replace(s, "\\"@, "\\\\"@), "\""@, "\\\""@)
}

/// The YAML front matter of a prepared document.
pub open spec fn front_matter(title: Seq<char>, author: Seq<char>) -> Seq<char> {
    "---\ntitle: \""@ + yaml_escape(title) + "\"\nauthor: \""@ + yaml_escape(author)
        + "\"\nlang: de\n---\n\n"@
}

/// The state while reading a document: title, whether it was found, inside a
/// `<details>` block, body lines so far.
pub type PartState = (Seq<char>, bool, bool, Seq<Seq<char>>);

/// Reads one line: the first `# ` line gives the title; `<details>` blocks are
/// dropped; headings become HTML; other lines are kept with graphics paths pointing to
/// the cropped versions.
pub open spec fn part_step(st: PartState, line: Seq<char>) -> PartState {
    let (title, found, inside, out) = st;
    if !found && starts_with(line, "# "@) {
        (trim(line.skip(2)), true, inside, out)
    } else if contains(line, "<details"@) {
        (title, found, true, out)
    } else if contains(line, "</details>"@) {
        (title, found, false, out)
    } else if inside {
        st
    } else {
        match spec_convert_h3(line) {
            Some(h) => (title, found, inside, out.push(h)),
            None => (title, found, inside, out.push(replace(line, "../graphics/"@, "../graphics-cropped/"@))),
        }
    }
}

/// The state after reading the lines `ls`.
pub open spec fn part_fold(ls: Seq<Seq<char>>) -> PartState
    decreases ls.len(),
{
    if ls.len() == 0 {
        (Seq::empty(), false, false, Seq::empty())
    } else {
        part_step(part_fold(ls.drop_last()), ls.last())
    }
}

/// The lines without the leading blank ones.
pub open spec fn drop_blank_prefix(ls: Seq<Seq<char>>) -> Seq<Seq<char>>
    decreases ls.len(),
{
    if ls.len() > 0 && trim(ls[0]).len() == 0 {
        drop_blank_prefix(ls.drop_first())
    } else {
        ls
    }
}

/// The first index at or after `k` of a line that is not blank (or the length).
pub open spec fn blank_end(ls: Seq<Seq<char>>, k: int) -> int
    decreases ls.len() - k,
{
    if 0 <= k < ls.len() && trim(ls[k]).len() == 0 {
        blank_end(ls, k + 1)
    } else {
        k
    }
}

/// The lines from `i` on with each `<h3>` line, the blank lines after it and the first
/// line of text wrapped in a `<div class="remark">`, so that they stay on one page.
pub open spec fn wrap_from(ls: Seq<Seq<char>>, i: int) -> Seq<Seq<char>>
    decreases ls.len() - i,
{
    if i < 0 || i >= ls.len() {
        Seq::empty()
    } else if starts_with(ls[i], "<h3>"@) {
        let j = blank_end(ls, i + 1);
        if j <= i {
            Seq::empty()
        } else {
            let head = seq!["<div class=\"remark\">"@, ls[i], Seq::empty()] + ls.subrange(i + 1, j);
            if j < ls.len() {
                head + seq![ls[j], Seq::empty(), "</div>"@, Seq::empty()] + wrap_from(ls, j + 1)
            } else {
                head + seq![Seq::empty(), "</div>"@, Seq::empty()]
            }
        }
    } else {
        seq![ls[i]] + wrap_from(ls, i + 1)
    }
}

/// The body lines of a document, ready for the renderer.
pub open spec fn body_lines(raw: Seq<char>) -> Seq<Seq<char>> {
    wrap_from(drop_blank_prefix(part_fold(lines(raw)).3), 0)
}

/// Each line followed by a line break.
pub open spec fn lines_text(ls: Seq<Seq<char>>) -> Seq<char>
    decreases ls.len(),
{
    if ls.len() == 0 {
        Seq::empty()
    } else {
        lines_text(ls.drop_last()) + ls.last() + "\n"@
    }
}

/// The title and content of a prepared single document.
pub open spec fn spec_prepare(raw: Seq<char>, author: Seq<char>) -> (Seq<char>, Seq<char>) {
    let title = part_fold(lines(raw)).0;
    (title, front_matter(title, author) + lines_text(body_lines(raw)))
}

/// The title and body of a part file.
pub open spec fn spec_extract_part(raw: Seq<char>) -> (Seq<char>, Seq<char>) {
    (part_fold(lines(raw)).0, join(body_lines(raw), "\n"@))
}

fn yaml_escape_exec(s: &str) -> (r: Vec<char>)
    ensures
        r@ == yaml_escape(s@),
{
    proof {
        reveal_strlit("\\");
        reveal_strlit("\"");
    }
    let a = replace_exec(&chars_of(s), "\\", "\\\\");
    replace_exec(&a, "\"", "\\\"")
}

pub fn front_matter_exec(title: &str, author: &str) -> (r: Vec<char>)
    ensures
        r@ == front_matter(title@, author@),
{
    let mut out = chars_of("---\ntitle: \"");
    push_all(&mut out, &yaml_escape_exec(title));
    push_str(&mut out, "\"\nauthor: \"");
    push_all(&mut out, &yaml_escape_exec(author));
    push_str(&mut out, "\"\nlang: de\n---\n\n");
    out
}

fn body_lines_exec(raw: &str) -> (r: (Vec<char>, Vec<Vec<char>>))
    ensures
        r.0@ == part_fold(lines(raw@)).0,
        views(r.1@) == body_lines(raw@),
{
    let ls = lines_exec(&chars_of(raw));
    let mut title: Vec<char> = Vec::new();
    let mut found = false;
    let mut inside = false;
    let mut out: Vec<Vec<char>> = Vec::new();
    let mut i: usize = 0;
    while i < ls.len()
        invariant
            i <= ls.len(),
            views(ls@) == lines(raw@),
            part_fold(views(ls@).take(i as int)) == (title@, found, inside, views(out@)),
        decreases ls.len() - i,
    {
        proof {
            reveal_strlit("# ");
        }
        assert(views(ls@).take(i + 1).drop_last() =~= views(ls@).take(i as int));
        assert(views(ls@)[i as int] == ls@[i as int]@);
        let l = &ls[i];
        if !found && starts_with_exec(l, "# ") {
            title = trim_exec(&slice_chars(l, 2, l.len()));
            assert(l@.subrange(2, l@.len() as int) =~= l@.skip(2));
            found = true;
        } else if contains_exec(l, "<details") {
            inside = true;
        } else if contains_exec(l, "</details>") {
            inside = false;
        } else if inside {
        } else {
            let line = string_of(l);
            let ghost before = out@;
            match convert_h3(line.as_str()) {
                Some(h) => {
                    let hv = chars_of(h.as_str());
                    out.push(hv);
                    assert(views(out@) =~= views(before).push(hv@));
                },
                None => {
                    proof {
                        reveal_strlit("../graphics/");
                    }
                    let r = replace_exec(l, "../graphics/", "../graphics-cropped/");
                    out.push(r);
                    assert(views(out@) =~= views(before).push(r@));
                },
            }
        }
        i += 1;
    }
    assert(views(ls@).take(ls.len() as int) =~= views(ls@));
    // leading blank lines
    let mut k: usize = 0;
    let ghost body = views(out@);
    assert(body.skip(0) =~= body);
    while k < out.len() && is_blank_line(&out[k])
        invariant
            k <= out.len(),
            body == views(out@),
            drop_blank_prefix(body) == drop_blank_prefix(body.skip(k as int)),
        decreases out.len() - k,
    {
        assert(body.skip(k as int)[0] == out@[k as int]@);
        assert(body.skip(k as int).drop_first() =~= body.skip(k + 1));
        k += 1;
    }
    if k < out.len() {
        assert(body.skip(k as int)[0] == out@[k as int]@);
    }
    let mut rest: Vec<Vec<char>> = Vec::new();
    let mut m: usize = k;
    while m < out.len()
        invariant
            k <= m <= out.len(),
            body == views(out@),
            views(rest@) == body.subrange(k as int, m as int),
        decreases out.len() - m,
    {
        let ghost before = rest@;
        let c = copy_chars(&out[m]);
        rest.push(c);
        assert(views(rest@) =~= views(before).push(c@));
        assert(body[m as int] == c@);
        assert(views(rest@) =~= body.subrange(k as int, m + 1));
        m += 1;
    }
    assert(body.subrange(k as int, out.len() as int) =~= body.skip(k as int));
    let wrapped = wrap_h3_with_next(&rest);
    (title, wrapped)
}

pub fn is_blank_line(l: &Vec<char>) -> (r: bool)
    ensures
        r == (trim(l@).len() == 0),
{
    crate::text::is_blank(l)
}

/// Wrap each `<h3>` line and the first following non-empty line in a
/// `<div class="remark">` so they stay on the same page.
pub fn wrap_h3_with_next(lines: &Vec<Vec<char>>) -> (r: Vec<Vec<char>>)
    ensures
        views(r@) == wrap_from(views(lines@), 0),
{
    let ghost ls = views(lines@);
    let mut out: Vec<Vec<char>> = Vec::new();
    let mut i: usize = 0;
    proof {
        reveal_strlit("<h3>");
    }
    while i < lines.len()
        invariant
            i <= lines.len(),
            ls == views(lines@),
            views(out@) + wrap_from(ls, i as int) == wrap_from(ls, 0),
        decreases lines.len() - i,
    {
        let ghost before = views(out@);
        let ghost i0 = i as int;
        assert(ls[i as int] == lines@[i as int]@);
        if starts_with_exec(&lines[i], "<h3>") {
            out.push(chars_of("<div class=\"remark\">"));
            out.push(copy_chars(&lines[i]));
            out.push(Vec::new());
            assert(views(out@) =~= before + seq!["<div class=\"remark\">"@, ls[i0], Seq::empty()] + ls.subrange(i0 + 1, i0 + 1));
            i += 1;
            while i < lines.len() && is_blank_line(&lines[i])
                invariant
                    0 <= i0 < i <= lines.len(),
                    ls == views(lines@),
                    ls.len() == lines.len(),
                    blank_end(ls, i0 + 1) == blank_end(ls, i as int),
                    views(out@) == before + seq!["<div class=\"remark\">"@, ls[i0], Seq::empty()]
                        + ls.subrange(i0 + 1, i as int),
                decreases lines.len() - i,
            {
                assert(ls[i as int] == lines@[i as int]@);
                let ghost o = views(out@);
                out.push(copy_chars(&lines[i]));
                assert(views(out@) =~= o.push(ls[i as int]));
                assert(ls.subrange(i0 + 1, i + 1) =~= ls.subrange(i0 + 1, i as int).push(ls[i as int]));
                i += 1;
            }
            let j = i;
            if j < lines.len() {
                assert(ls[j as int] == lines@[j as int]@);
            }
            assert(blank_end(ls, j as int) == j);
            let ghost head = seq!["<div class=\"remark\">"@, ls[i0], Seq::<char>::empty()] + ls.subrange(i0 + 1, j as int);
            let ghost after_head = views(out@);
            assert(after_head == before + head);
            if j < lines.len() {
                out.push(copy_chars(&lines[j]));
                out.push(Vec::new());
                out.push(chars_of("</div>"));
                out.push(Vec::new());
                assert(views(out@) =~= after_head + seq![ls[j as int], Seq::empty(), "</div>"@, Seq::empty()]);
                assert(wrap_from(ls, i0) == head + seq![ls[j as int], Seq::empty(), "</div>"@, Seq::empty()] + wrap_from(ls, j + 1));
                i = j + 1;
            } else {
                out.push(Vec::new());
                out.push(chars_of("</div>"));
                out.push(Vec::new());
                assert(views(out@) =~= after_head + seq![Seq::empty(), "</div>"@, Seq::empty()]);
                assert(wrap_from(ls, i0) == head + seq![Seq::empty(), "</div>"@, Seq::empty()]);
                assert(wrap_from(ls, j as int) =~= Seq::<Seq<char>>::empty());
            }
            assert(views(out@) + wrap_from(ls, i as int) =~= before + wrap_from(ls, i0));
        } else {
            out.push(copy_chars(&lines[i]));
            assert(views(out@) =~= before.push(ls[i0]));
            i += 1;
        }
    }
    assert(wrap_from(ls, i as int) =~= Seq::<Seq<char>>::empty());
    assert(views(out@) + Seq::<Seq<char>>::empty() =~= views(out@));
    out
}


fn lines_text_exec(ls: &Vec<Vec<char>>, out: &mut Vec<char>)
    ensures
        final(out)@ == old(out)@ + lines_text(views(ls@)),
{
    let ghost o = old(out)@;
    let mut i: usize = 0;
    while i < ls.len()
        invariant
            i <= ls.len(),
            out@ == o + lines_text(views(ls@).take(i as int)),
        decreases ls.len() - i,
    {
        assert(views(ls@).take(i + 1).drop_last() =~= views(ls@).take(i as int));
        assert(views(ls@)[i as int] == ls@[i as int]@);
        proof {
            reveal_strlit("\n");
        }
        push_all(out, &ls[i]);
        out.push('\n');
        assert(out@ =~= o + lines_text(views(ls@).take(i + 1)));
        i += 1;
    }
    assert(views(ls@).take(ls.len() as int) =~= views(ls@));
}

/// Prepare a single Markdown file for the PDF renderer: front matter with title and
/// author, then the body (see `body_lines`), each line ended by a line break.
pub fn prepare(raw: &str, author: &str) -> (r: PreparedMarkdown)
    ensures
        (r.title@, r.content@) == spec_prepare(raw@, author@),
{
    let (title, body) = body_lines_exec(raw);
    let t = string_of(&title);
    let mut content = front_matter_exec(t.as_str(), author);
    lines_text_exec(&body, &mut content);
    PreparedMarkdown { title: t, content: string_of(&content) }
}

/// Extract title and body (lines joined by line breaks) from a part file.
pub fn extract_part(raw: &str) -> (r: (String, String))
    ensures
        (r.0@, r.1@) == spec_extract_part(raw@),
{
    let (title, body) = body_lines_exec(raw);
    let j = join_exec(&body, &chars_of("\n"));
    (string_of(&title), string_of(&j))
}

/// The title of an index file: its first `# ` line, trimmed (empty if none).
pub open spec fn index_title(ls: Seq<Seq<char>>) -> Seq<char>
    decreases ls.len(),
{
    if ls.len() == 0 {
        Seq::empty()
    } else if starts_with(ls[0], "# "@) {
        trim(ls[0].skip(2))
    } else {
        index_title(ls.drop_first())
    }
}

/// The chapter heading of a part: what follows ` – ` in its title, or the whole title.
pub open spec fn chapter_of(part_title: Seq<char>) -> Seq<char> {
    match find_from(part_title, " – "@, 0) {
        Some(p) => part_title.skip(p + 3),
        None => part_title,
    }
}

/// The chapter heading of a part is everything in its title after the first ` – `,
/// later dashes included; a title without that separator is its own heading.
pub proof fn lemma_chapter_heading(part_title: Seq<char>, p: int)
    ensures
        matches_at(part_title, " – "@, p) && (forall|q: int|
            0 <= q < p ==> !#[trigger] matches_at(part_title, " – "@, q)) ==> chapter_of(part_title)
            == part_title.skip(p + 3),
        (forall|q: int| !#[trigger] matches_at(part_title, " – "@, q)) ==> chapter_of(part_title)
            == part_title,
{
    reveal_strlit(" – ");
    lemma_find_from(part_title, " – "@, 0);
    if matches_at(part_title, " – "@, p) && (forall|q: int|
        0 <= q < p ==> !#[trigger] matches_at(part_title, " – "@, q)) {
        match find_from(part_title, " – "@, 0) {
            Some(j) => {
                assert(!(j < p));
                assert(!(p < j));
            },
            None => {
                assert(!matches_at(part_title, " – "@, p));
            },
        }
    }
}

/// The text of the parts of a book: for each, its chapter heading (if not empty) as
/// `## ` heading, then its body.
pub open spec fn book_text(parts: Seq<Seq<char>>) -> Seq<char>
    decreases parts.len(),
{
    if parts.len() == 0 {
        Seq::empty()
    } else {
        let (pt, body) = spec_extract_part(parts.last());
        let ch = chapter_of(pt);
        book_text(parts.drop_last()) + (if ch.len() > 0 {
            "## "@ + ch + "\n\n"@
        } else {
            Seq::empty()
        }) + body + "\n\n"@
    }
}

/// The title and content of a book prepared from an index file and its parts.
pub open spec fn spec_prepare_book(index_raw: Seq<char>, parts: Seq<Seq<char>>, author: Seq<char>) -> (Seq<char>, Seq<char>) {
    let title = index_title(lines(index_raw));
    (title, front_matter(title, author) + book_text(parts))
}

/// Prepare a multi-part book from an index file and its part contents.
pub fn prepare_book(index_raw: &str, part_raws: &[String], author: &str) -> (r: PreparedMarkdown)
    ensures
        (r.title@, r.content@) == spec_prepare_book(
            index_raw@,
            crate::translate::common::string_views(part_raws@),
            author@,
        ),
{
    let ls = lines_exec(&chars_of(index_raw));
    let mut title: Vec<char> = Vec::new();
    let mut i: usize = 0;
    assert(views(ls@).skip(0) =~= views(ls@));
    while i < ls.len()
        invariant_except_break
            title@ == Seq::<char>::empty(),
        invariant
            i <= ls.len(),
            views(ls@) == lines(index_raw@),
            index_title(lines(index_raw@)) == index_title(views(ls@).skip(i as int)),
        ensures
            title@ == index_title(lines(index_raw@)),
        decreases ls.len() - i,
    {
        proof {
            reveal_strlit("# ");
        }
        assert(views(ls@).skip(i as int)[0] == ls@[i as int]@);
        assert(views(ls@).skip(i as int).drop_first() =~= views(ls@).skip(i + 1));
        if starts_with_exec(&ls[i], "# ") {
            let l = &ls[i];
            title = trim_exec(&slice_chars(l, 2, l.len()));
            assert(l@.subrange(2, l@.len() as int) =~= l@.skip(2));
            break;
        }
        i += 1;
        if i == ls.len() {
            assert(views(ls@).skip(i as int) =~= Seq::<Seq<char>>::empty());
        }
    }
    let t = string_of(&title);
    let mut content = front_matter_exec(t.as_str(), author);
    let ghost fm = content@;
    let ghost pv = crate::translate::common::string_views(part_raws@);
    let mut k: usize = 0;
    while k < part_raws.len()
        invariant
            k <= part_raws.len(),
            pv == crate::translate::common::string_views(part_raws@),
            content@ == fm + book_text(pv.take(k as int)),
        decreases part_raws.len() - k,
    {
        assert(pv.take(k + 1).drop_last() =~= pv.take(k as int));
        assert(pv[k as int] == part_raws@[k as int]@);
        let (pt, body) = extract_part(part_raws[k].as_str());
        let ptc = chars_of(pt.as_str());
        let sep = chars_of(" – ");
        let ch: Vec<char> = match find_from_exec(&ptc, &sep, 0) {
            Some(p) => {
                proof {
                    crate::text::lemma_find_from(ptc@, sep@, 0);
                    reveal_strlit(" – ");
                }
                assert(sep@.len() == 3);
                assert(p + 3 <= ptc.len());
                let c = slice_chars(&ptc, p + 3, ptc.len());
                assert(c@ =~= ptc@.skip(p + 3));
                c
            },
            None => ptc,
        };
        let ghost before = content@;
        if ch.len() > 0 {
            push_str(&mut content, "## ");
            push_all(&mut content, &ch);
            push_str(&mut content, "\n\n");
        }
        push_str(&mut content, body.as_str());
        push_str(&mut content, "\n\n");
        proof {
            let chs = chapter_of(pt@);
            assert(ch@ == chs);
            assert(content@ =~= before + (if chs.len() > 0 {
                "## "@ + chs + "\n\n"@
            } else {
                Seq::empty()
            }) + body@ + "\n\n"@);
        }
        k += 1;
    }
    assert(pv.take(part_raws.len() as int) =~= pv);
    PreparedMarkdown { title: t, content: string_of(&content) }
}
/// The title lines a book title is estimated to take, when more than three: at 54pt
/// on the content width about 19 characters (bytes of UTF-8) fit a line; `None` when
/// the title fits in three lines.
pub open spec fn spec_title_overflow_lines(title: Seq<char>) -> Option<nat> {
    let n = crate::translate::reuse::utf8_len(title);
    if n > 19 * 3 {
        Some(((n + 18) / 19) as nat)
    } else {
        None
    }
}

/// The estimated number of title lines, when the title is likely to overflow the
/// three lines of a title page.
pub fn title_overflow_lines(title: &str) -> (r: Option<usize>)
    ensures
        match r {
            Some(k) => spec_title_overflow_lines(title@) == Some(k as nat),
            None => spec_title_overflow_lines(title@) is None,
        },
{
    let t = chars_of(title);
    let n = crate::translate::reuse::utf8_len_exec(&t);
    assert(n <= 4 * 0x1_0000_0000_0000_0000) by {
        assert(t.len() <= usize::MAX);
    }
    if n > 57 {
        let lines: u128 = (n + 18) / 19;
        assert(lines <= usize::MAX) by {
            assert(t@.len() == t.len());
            assert(n <= 4 * t.len());
            assert(t.len() <= usize::MAX);
        }
        Some(lines as usize)
    } else {
        None
    }
}

} // verus!
