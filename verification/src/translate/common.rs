//! Document structure, glossary, prompt building and the text transformations
//! used around a translation.
use vstd::prelude::*;
use crate::markup::{
    content, hits, hits_exec, spans_within, strip_all, strip_all_exec, subst_all, subst_all_exec, sv,
    svs, target, unwrap_all, unwrap_all_exec, wrap_all, wrap_all_exec, Pat, Span,
};
use crate::search::slug::{spec_unescape_label, unescape_chars};
use crate::text::{
    append_line, append_line_exec, chars_of, contains, contains_exec, copy_chars, lines,
    lines_exec, matches_at, starts_with, starts_with_exec, string_of, trim, trim_exec, views,
    chars_eq, join, join_exec, slice_chars,
};

verus! {

/// A remark: its heading line and its body text (trimmed).
pub struct Remark {
    pub heading: String,
    pub body: String,
}

/// The heading and body of a remark, as text.
pub open spec fn remark_view(r: Remark) -> (Seq<char>, Seq<char>) {
    (r.heading@, r.body@)
}

/// The heading and body of each remark.
pub open spec fn remark_views(v: Seq<Remark>) -> Seq<(Seq<char>, Seq<char>)> {
    v.map_values(|r: Remark| remark_view(r))
}

/// The state after reading some lines of a document: preamble, finished remarks,
/// heading and body of the remark being read, and whether one is being read.
pub type DocState = (Seq<char>, Seq<(Seq<char>, Seq<char>)>, Seq<char>, Seq<char>, bool);

/// Reads the lines of a document one after another: a line starting with `"### "`
/// opens a remark (closing the previous one, with its body trimmed); lines before the
/// first remark form the preamble; other lines are added to the current body.
pub open spec fn doc_fold(ls: Seq<Seq<char>>) -> DocState
    decreases ls.len(),
{
    if ls.len() == 0 {
        (Seq::empty(), Seq::empty(), Seq::empty(), Seq::empty(), false)
    } else {
        let (pre, rs, h, b, inr) = doc_fold(ls.drop_last());
        let line = ls.last();
        if starts_with(line, "### "@) {
            (pre, if inr {
                rs.push((h, trim(b)))
            } else {
                rs
            }, line, Seq::empty(), true)
        } else if !inr {
            (append_line(pre, line), rs, h, b, inr)
        } else {
            (pre, rs, h, append_line(b, line), inr)
        }
    }
}

/// The preamble and the remarks of a document.
pub open spec fn spec_parse_document(content: Seq<char>) -> (Seq<char>, Seq<(Seq<char>, Seq<char>)>) {
    let (pre, rs, h, b, inr) = doc_fold(lines(content));
    (pre, if inr {
        rs.push((h, trim(b)))
    } else {
        rs
    })
}

/// Split a Markdown document into its preamble and a list of remarks.
pub fn parse_document(content: &str) -> (r: (String, Vec<Remark>))
    ensures
        (r.0@, remark_views(r.1@)) == spec_parse_document(content@),
{
    let text = chars_of(content);
    let ls = lines_exec(&text);
    let mut preamble: Vec<char> = Vec::new();
    let mut remarks: Vec<Remark> = Vec::new();
    let mut heading: Vec<char> = Vec::new();
    let mut body: Vec<char> = Vec::new();
    let mut in_remark = false;
    let mut i: usize = 0;
    while i < ls.len()
        invariant
            i <= ls.len(),
            views(ls@) == lines(content@),
            (preamble@, remark_views(remarks@), heading@, body@, in_remark) == doc_fold(
                views(ls@).take(i as int),
            ),
        decreases ls.len() - i,
    {
        let line = &ls[i];
        proof {
            assert(views(ls@).take(i + 1).drop_last() =~= views(ls@).take(i as int));
            assert(views(ls@).take(i + 1).last() == line@);
        }
        if starts_with_exec(line, "### ") {
            if in_remark {
                let b = trim_exec(&body);
                let ghost before = remarks@;
                remarks.push(Remark { heading: string_of(&heading), body: string_of(&b) });
                assert(remark_views(remarks@) =~= remark_views(before).push((heading@, b@)));
            }
            heading = copy_chars(line);
            body = Vec::new();
            in_remark = true;
        } else if !in_remark {
            append_line_exec(&mut preamble, line);
        } else {
            append_line_exec(&mut body, line);
        }
        i += 1;
    }
    proof {
        assert(views(ls@).take(ls.len() as int) =~= views(ls@));
    }
    if in_remark {
        let b = trim_exec(&body);
        let ghost before = remarks@;
        remarks.push(Remark { heading: string_of(&heading), body: string_of(&b) });
        assert(remark_views(remarks@) =~= remark_views(before).push((heading@, b@)));
    }
    (string_of(&preamble), remarks)
}

// ---------------------------------------------------------------------------
// Remark anchors
// ---------------------------------------------------------------------------

/// A facsimile label turned into anchor form: `[` becomes `.`, `]` is dropped and the
/// `,` between pages becomes `+` (so `1[1],2[3]` becomes `1.1+2.3`).
pub open spec fn anchor_chars(s: Seq<char>) -> Seq<char>
    decreases s.len(),
{
    if s.len() == 0 {
        Seq::empty()
    } else {
        let c = s.last();
        anchor_chars(s.drop_last()) + if c == ',' {
            seq!['+']
        } else if c == '[' {
            seq!['.']
        } else if c == ']' {
            Seq::empty()
        } else {
            seq![c]
        }
    }
}

/// Whether a link target points into a work (`/w-…`).
pub open spec fn is_work_target(url: Seq<char>) -> bool {
    starts_with(url, "/w-"@) || contains(url, "/w-"@)
}

/// The unescaped texts of the links in `s` listed by `hs` that do not point into a work.
pub open spec fn page_labels(s: Seq<char>, hs: Seq<Span>) -> Seq<Seq<char>>
    decreases hs.len(),
{
    if hs.len() == 0 {
        Seq::empty()
    } else {
        let rest = page_labels(s, hs.drop_last());
        let h = hs.last();
        if is_work_target(target(s, h)) {
            rest
        } else {
            rest.push(spec_unescape_label(content(s, h)))
        }
    }
}

/// The anchor ID of a document remark heading: HTML tags are removed, the texts of its
/// facsimile links (not those pointing into a work) are unescaped and joined with `,`,
/// and the result is put in anchor form.
pub open spec fn spec_anchor_from_doc_heading(heading: Seq<char>) -> Seq<char> {
    let no_html = strip_all(Pat::Tag, heading);
    anchor_chars(join(page_labels(no_html, hits(Pat::LinkAnchor, no_html)), ","@))
}

pub fn anchor_chars_exec(s: &[char]) -> (r: Vec<char>)
    ensures
        r@ == anchor_chars(s@),
{
    let mut out: Vec<char> = Vec::new();
    let mut i: usize = 0;
    while i < s.len()
        invariant
            i <= s.len(),
            out@ == anchor_chars(s@.take(i as int)),
        decreases s.len() - i,
    {
        assert(s@.take(i + 1).drop_last() =~= s@.take(i as int));
        let c = s[i];
        if c == ',' {
            out.push('+');
        } else if c == '[' {
            out.push('.');
        } else if c == ']' {
        } else {
            out.push(c);
        }
        proof {
            if c == ']' {
                assert(out@ + Seq::<char>::empty() =~= out@);
            }
        }
        i += 1;
    }
    assert(s@.take(s.len() as int) =~= s@);
    out
}

/// The unescaped link texts of `s` not pointing into a work.
fn page_labels_exec(s: &[char]) -> (r: Vec<Vec<char>>)
    ensures
        views(r@) == page_labels(s@, hits(Pat::LinkAnchor, s@)),
{
    let hs = hits_exec(&Pat::LinkAnchor, s);
    let mut out: Vec<Vec<char>> = Vec::new();
    let mut i: usize = 0;
    while i < hs.len()
        invariant
            i <= hs.len(),
            svs(hs@) == hits(Pat::LinkAnchor, s@),
            spans_within(hs@, s.len() as int),
            views(out@) == page_labels(s@, svs(hs@).take(i as int)),
        decreases hs.len() - i,
    {
        let h = hs[i];
        proof {
            assert(svs(hs@).take(i + 1).drop_last() =~= svs(hs@).take(i as int));
            assert(svs(hs@).take(i + 1).last() == sv(h));
        }
        let url = slice_chars(s, h.3, h.4);
        let w = starts_with_exec(&url, "/w-") || contains_exec(&url, "/w-");
        if !w {
            let label = slice_chars(s, h.1, h.2);
            let u = unescape_chars(&label);
            let ghost before = out@;
            out.push(u);
            assert(views(out@) =~= views(before).push(u@));
        }
        i += 1;
    }
    assert(svs(hs@).take(hs.len() as int) =~= svs(hs@));
    out
}

/// Compute the anchor ID from a source document remark heading's page references,
/// e.g. heading `### [1\[1\]](url)` gives `1.1`.
pub fn anchor_from_doc_heading(heading: &str) -> (r: String)
    ensures
        r@ == spec_anchor_from_doc_heading(heading@),
{
    let h = chars_of(heading);
    let no_html = strip_all_exec(&Pat::Tag, &h);
    let labels = page_labels_exec(&no_html);
    let comma = chars_of(",");
    let joined = join_exec(&labels, &comma);
    string_of(&anchor_chars_exec(&joined))
}


// ---------------------------------------------------------------------------
// Change detection
// ---------------------------------------------------------------------------

/// The `(anchor, body)` of each remark whose heading has a non-empty anchor.
pub open spec fn anchored(rs: Seq<(Seq<char>, Seq<char>)>) -> Seq<(Seq<char>, Seq<char>)>
    decreases rs.len(),
{
    if rs.len() == 0 {
        Seq::empty()
    } else {
        let rest = anchored(rs.drop_last());
        let a = spec_anchor_from_doc_heading(rs.last().0);
        if a.len() == 0 {
            rest
        } else {
            rest.push((a, rs.last().1))
        }
    }
}

/// The value of the last entry with key `key` (what a map built by inserting the
/// entries in order holds for `key`).
pub open spec fn lookup_last(m: Seq<(Seq<char>, Seq<char>)>, key: Seq<char>) -> Option<Seq<char>>
    decreases m.len(),
{
    if m.len() == 0 {
        None
    } else if m.last().0 == key {
        Some(m.last().1)
    } else {
        lookup_last(m.drop_last(), key)
    }
}

/// The `(index, anchor)` of each current remark with a non-empty anchor whose body
/// differs from the old body stored under that anchor, or that has no old body.
pub open spec fn changed_remarks(
    cur: Seq<(Seq<char>, Seq<char>)>,
    old: Seq<(Seq<char>, Seq<char>)>,
) -> Seq<(int, Seq<char>)>
    decreases cur.len(),
{
    if cur.len() == 0 {
        Seq::empty()
    } else {
        let rest = changed_remarks(cur.drop_last(), old);
        let a = spec_anchor_from_doc_heading(cur.last().0);
        if a.len() == 0 || lookup_last(old, a) == Some(cur.last().1) {
            rest
        } else {
            rest.push((cur.len() - 1, a))
        }
    }
}

/// The remarks of `current` that need translating again compared with `old`.
pub open spec fn spec_detect_changed_remarks(old: Seq<char>, current: Seq<char>) -> Seq<
    (int, Seq<char>),
> {
    changed_remarks(spec_parse_document(current).1, anchored(spec_parse_document(old).1))
}

/// The spec view of a change list.
pub open spec fn change_views(v: Seq<(usize, String)>) -> Seq<(int, Seq<char>)> {
    v.map_values(|e: (usize, String)| (e.0 as int, e.1@))
}

fn anchored_exec(rs: &Vec<Remark>) -> (r: Vec<(Vec<char>, Vec<char>)>)
    ensures
        r@.map_values(|e: (Vec<char>, Vec<char>)| (e.0@, e.1@)) == anchored(remark_views(rs@)),
{
    let mut out: Vec<(Vec<char>, Vec<char>)> = Vec::new();
    let mut i: usize = 0;
    while i < rs.len()
        invariant
            i <= rs.len(),
            out@.map_values(|e: (Vec<char>, Vec<char>)| (e.0@, e.1@)) == anchored(
                remark_views(rs@).take(i as int),
            ),
        decreases rs.len() - i,
    {
        proof {
            assert(remark_views(rs@).take(i + 1).drop_last() =~= remark_views(rs@).take(i as int));
        }
        let a = chars_of(&anchor_from_doc_heading(rs[i].heading.as_str()));
        if a.len() > 0 {
            let b = chars_of(rs[i].body.as_str());
            let ghost before = out@;
            out.push((a, b));
            assert(out@.map_values(|e: (Vec<char>, Vec<char>)| (e.0@, e.1@)) =~= before.map_values(
                |e: (Vec<char>, Vec<char>)| (e.0@, e.1@),
            ).push((a@, b@)));
        }
        i += 1;
    }
    assert(remark_views(rs@).take(rs.len() as int) =~= remark_views(rs@));
    out
}

fn lookup_last_exec(m: &Vec<(Vec<char>, Vec<char>)>, key: &[char]) -> (r: Option<usize>)
    ensures
        r matches Some(k) ==> k < m.len() && lookup_last(
            m@.map_values(|e: (Vec<char>, Vec<char>)| (e.0@, e.1@)),
            key@,
        ) == Some(m@[k as int].1@),
        r is None ==> lookup_last(m@.map_values(|e: (Vec<char>, Vec<char>)| (e.0@, e.1@)), key@)
            is None,
{
    let ghost mv = m@.map_values(|e: (Vec<char>, Vec<char>)| (e.0@, e.1@));
    let mut j = m.len();
    assert(mv.take(j as int) =~= mv);
    while j > 0
        invariant
            j <= m.len(),
            mv == m@.map_values(|e: (Vec<char>, Vec<char>)| (e.0@, e.1@)),
            lookup_last(mv, key@) == lookup_last(mv.take(j as int), key@),
        decreases j,
    {
        proof {
            assert(mv.take(j as int).drop_last() =~= mv.take(j - 1));
        }
        if chars_eq(&m[j - 1].0, key) {
            return Some(j - 1);
        }
        j -= 1;
    }
    None
}

/// Detect remarks that changed between the old and current German text. Returns the
/// `(remark_index, anchor_id)` of each remark that needs translating again.
pub fn detect_changed_remarks(old_de_content: &str, current_de_content: &str) -> (r: Vec<
    (usize, String),
>)
    ensures
        change_views(r@) == spec_detect_changed_remarks(old_de_content@, current_de_content@),
{
    let (_, old_remarks) = parse_document(old_de_content);
    let (_, current_remarks) = parse_document(current_de_content);
    let old_map = anchored_exec(&old_remarks);
    let ghost mv = old_map@.map_values(|e: (Vec<char>, Vec<char>)| (e.0@, e.1@));
    let ghost cur = remark_views(current_remarks@);
    let mut changed: Vec<(usize, String)> = Vec::new();
    let mut i: usize = 0;
    while i < current_remarks.len()
        invariant
            i <= current_remarks.len(),
            cur == remark_views(current_remarks@),
            mv == old_map@.map_values(|e: (Vec<char>, Vec<char>)| (e.0@, e.1@)),
            change_views(changed@) == changed_remarks(cur.take(i as int), mv),
        decreases current_remarks.len() - i,
    {
        proof {
            assert(cur.take(i + 1).drop_last() =~= cur.take(i as int));
        }
        let r = &current_remarks[i];
        let anchor = anchor_from_doc_heading(r.heading.as_str());
        let a = chars_of(anchor.as_str());
        if a.len() > 0 {
            let body = chars_of(r.body.as_str());
            let same = match lookup_last_exec(&old_map, &a) {
                Some(k) => chars_eq(&old_map[k].1, &body),
                None => false,
            };
            if !same {
                let ghost before = changed@;
                changed.push((i, anchor));
                assert(change_views(changed@) =~= change_views(before).push((i as int, a@)));
            }
        }
        i += 1;
    }
    assert(cur.take(current_remarks.len() as int) =~= cur);
    changed
}

/// No two remarks share a non-empty anchor.
pub open spec fn distinct_anchors(rs: Seq<(Seq<char>, Seq<char>)>) -> bool {
    forall|i: int, j: int|
        0 <= i < j < rs.len() && spec_anchor_from_doc_heading(#[trigger] rs[i].0).len() > 0 ==> spec_anchor_from_doc_heading(rs[i].0)
            != spec_anchor_from_doc_heading(#[trigger] rs[j].0)
}

proof fn lemma_lookup_anchored(rs: Seq<(Seq<char>, Seq<char>)>, i: int)
    requires
        distinct_anchors(rs),
        0 <= i < rs.len(),
        spec_anchor_from_doc_heading(rs[i].0).len() > 0,
    ensures
        lookup_last(anchored(rs), spec_anchor_from_doc_heading(rs[i].0)) == Some(rs[i].1),
    decreases rs.len(),
{
    let last = rs.len() - 1;
    if i < last {
        let init = rs.drop_last();
        assert(distinct_anchors(init)) by {
            assert forall|p: int, q: int|
                0 <= p < q < init.len() && spec_anchor_from_doc_heading(#[trigger] init[p].0).len() > 0 implies spec_anchor_from_doc_heading(init[p].0)
                    != spec_anchor_from_doc_heading(#[trigger] init[q].0) by {
                assert(init[p] == rs[p] && init[q] == rs[q]);
            }
        }
        assert(init[i] == rs[i]);
        lemma_lookup_anchored(init, i);
        assert(spec_anchor_from_doc_heading(rs[i].0) != spec_anchor_from_doc_heading(rs[last].0));
    }
    let a = spec_anchor_from_doc_heading(rs.last().0);
    let rest = anchored(rs.drop_last());
    if a.len() > 0 {
        assert(anchored(rs) == rest.push((a, rs.last().1)));
        assert(rest.push((a, rs.last().1)).drop_last() =~= rest);
    } else {
        assert(anchored(rs) == rest);
    }
}

proof fn lemma_nothing_changed(cur: Seq<(Seq<char>, Seq<char>)>, old: Seq<(Seq<char>, Seq<char>)>)
    requires
        forall|i: int|
            0 <= i < cur.len() && spec_anchor_from_doc_heading(#[trigger] cur[i].0).len() > 0 ==> lookup_last(
                old,
                spec_anchor_from_doc_heading(cur[i].0),
            ) == Some(cur[i].1),
    ensures
        changed_remarks(cur, old) == Seq::<(int, Seq<char>)>::empty(),
    decreases cur.len(),
{
    if cur.len() > 0 {
        let init = cur.drop_last();
        assert forall|i: int|
            0 <= i < init.len() && spec_anchor_from_doc_heading(#[trigger] init[i].0).len() > 0 implies lookup_last(
                old,
                spec_anchor_from_doc_heading(init[i].0),
            ) == Some(init[i].1) by {
            assert(init[i] == cur[i]);
        }
        lemma_nothing_changed(init, old);
        let l = cur.len() - 1;
        assert(cur.last() == cur[l]);
    }
}

/// A document compared with itself has no remark to translate again, provided no
/// anchor occurs twice in it.
pub proof fn lemma_unchanged_document_needs_no_translation(content: Seq<char>)
    requires
        distinct_anchors(spec_parse_document(content).1),
    ensures
        spec_detect_changed_remarks(content, content) == Seq::<(int, Seq<char>)>::empty(),
{
    let rs = spec_parse_document(content).1;
    assert forall|i: int|
        0 <= i < rs.len() && spec_anchor_from_doc_heading(#[trigger] rs[i].0).len() > 0 implies lookup_last(
            anchored(rs),
            spec_anchor_from_doc_heading(rs[i].0),
        ) == Some(rs[i].1) by {
        lemma_lookup_anchored(rs, i);
    }
    lemma_nothing_changed(rs, anchored(rs));
}


// ---------------------------------------------------------------------------
// Glossary
// ---------------------------------------------------------------------------

/// Parsed glossary split into term entries and general sections.
pub struct Glossary {
    /// Lines of the form `German = English` paired with a lowercase German key for matching.
    terms: Vec<(String, String)>,
    /// General principles and notes sections (always included).
    general: String,
}

/// The `(key, line)` pairs of a term list, as text.
pub open spec fn term_views(v: Seq<(String, String)>) -> Seq<(Seq<char>, Seq<char>)> {
    v.map_values(|e: (String, String)| (e.0@, e.1@))
}

impl Glossary {
    /// The term entries: lowercase German key and the original line.
    pub closed spec fn spec_terms(&self) -> Seq<(Seq<char>, Seq<char>)> {
        term_views(self.terms@)
    }

    /// The general sections.
    pub closed spec fn spec_general(&self) -> Seq<char> {
        self.general@
    }
}

/// The German side of a term line: the text before ` = `, trimmed, without a
/// parenthetical disambiguator such as `Zug (Spielzug)`.
pub open spec fn term_key_source(line: Seq<char>) -> Seq<char> {
    crate::text::before_first(trim(crate::text::before_first(line, " = "@)), " ("@)
}

/// The terms, the general text and whether the general sections have begun, after
/// reading the lines `ls`: from the first `## ` line on every line belongs to the
/// general text; before it, a line holding ` = ` that is not a heading is a term.
pub open spec fn glossary_fold(ls: Seq<Seq<char>>) -> (Seq<(Seq<char>, Seq<char>)>, Seq<char>, bool)
    decreases ls.len(),
{
    if ls.len() == 0 {
        (Seq::empty(), Seq::empty(), false)
    } else {
        let (t, g, ing) = glossary_fold(ls.drop_last());
        let line = ls.last();
        if starts_with(line, "## "@) || ing {
            (t, g + line.push('\n'), true)
        } else if contains(line, " = "@) && !starts_with(line, "#"@) {
            (t.push((crate::text::str_lowercase(term_key_source(line)), line)), g, ing)
        } else {
            (t, g, ing)
        }
    }
}

/// Text normalised for matching: lowercase, periods removed, white space collapsed.
pub open spec fn normalize(s: Seq<char>) -> Seq<char> {
    join(
        crate::text::words(crate::text::replace(crate::text::str_lowercase(s), "."@, ""@)),
        " "@,
    )
}

/// The term lines (each followed by a line break) whose normalised key occurs in the
/// normalised text `norm`.
pub open spec fn matching_terms(terms: Seq<(Seq<char>, Seq<char>)>, norm: Seq<char>) -> Seq<char>
    decreases terms.len(),
{
    if terms.len() == 0 {
        Seq::empty()
    } else {
        let rest = matching_terms(terms.drop_last(), norm);
        if contains(norm, normalize(terms.last().0)) {
            rest + terms.last().1.push('\n')
        } else {
            rest
        }
    }
}

fn normalize_exec(s: &[char]) -> (r: Vec<char>)
    ensures
        r@ == normalize(s@),
{
    let low = crate::text::lowercase(s);
    proof {
        reveal_strlit(".");
    }
    let nodot = crate::text::replace_exec(&low, ".", "");
    let ws = crate::text::words_exec(&nodot);
    let sp = chars_of(" ");
    join_exec(&ws, &sp)
}

impl Glossary {
    /// Parse a glossary Markdown string into terms and general sections.
    pub fn parse(content: &str) -> (g: Self)
        ensures
            (g.spec_terms(), g.spec_general(), glossary_fold(lines(content@)).2) == glossary_fold(
                lines(content@),
            ),
    {
        let text = chars_of(content);
        let ls = lines_exec(&text);
        let mut terms: Vec<(String, String)> = Vec::new();
        let mut general: Vec<char> = Vec::new();
        let mut in_general = false;
        let mut i: usize = 0;
        while i < ls.len()
            invariant
                i <= ls.len(),
                views(ls@) == lines(content@),
                (term_views(terms@), general@, in_general) == glossary_fold(
                    views(ls@).take(i as int),
                ),
            decreases ls.len() - i,
        {
            let line = &ls[i];
            proof {
                assert(views(ls@).take(i + 1).drop_last() =~= views(ls@).take(i as int));
                assert(views(ls@).take(i + 1).last() == line@);
            }
            if starts_with_exec(line, "## ") || in_general {
                in_general = true;
                crate::text::push_all(&mut general, line);
                general.push('\n');
            } else if contains_exec(line, " = ") && !starts_with_exec(line, "#") {
                let german = trim_exec(&crate::text::before_first_exec(line, " = "));
                let clean = crate::text::before_first_exec(&german, " (");
                let key = crate::text::lowercase(&clean);
                let ghost before = terms@;
                terms.push((string_of(&key), string_of(line)));
                assert(term_views(terms@) =~= term_views(before).push((key@, line@)));
            }
            i += 1;
        }
        proof {
            assert(views(ls@).take(ls.len() as int) =~= views(ls@));
        }
        Glossary { terms, general: string_of(&general) }
    }

    /// Return an empty glossary (no terms, no general sections).
    pub fn empty() -> (g: Self)
        ensures
            g.spec_terms() == Seq::<(Seq<char>, Seq<char>)>::empty(),
            g.spec_general() == Seq::<char>::empty(),
    {
        let g = Glossary { terms: Vec::new(), general: String::new() };
        assert(g.spec_terms() =~= Seq::<(Seq<char>, Seq<char>)>::empty());
        g
    }

    /// Whether the glossary has any term entries.
    pub fn has_terms(&self) -> (b: bool)
        ensures
            b == (self.spec_terms().len() > 0),
    {
        self.terms.len() > 0
    }

    /// Return the general translation principles (for inclusion in the system prompt).
    pub fn general_section(&self) -> (r: &str)
        ensures
            r@ == self.spec_general(),
    {
        self.general.as_str()
    }

    /// The term entries, as `(key, line)` pairs.
    pub fn term_entries(&self) -> (r: &Vec<(String, String)>)
        ensures
            term_views(r@) == self.spec_terms(),
    {
        &self.terms
    }

    /// Filter the glossary to only the terms that appear in the given text: the
    /// matching term lines, or an empty string if none match.
    pub fn filter_for(&self, text: &str) -> (r: String)
        ensures
            r@ == (if self.spec_terms().len() == 0 {
                Seq::empty()
            } else {
                matching_terms(self.spec_terms(), normalize(text@))
            }),
    {
        if self.terms.len() == 0 {
            return String::new();
        }
        let t = chars_of(text);
        let text_norm = normalize_exec(&t);
        let ghost ts = self.spec_terms();
        let mut result: Vec<char> = Vec::new();
        let mut i: usize = 0;
        while i < self.terms.len()
            invariant
                i <= self.terms.len(),
                ts == term_views(self.terms@),
                result@ == matching_terms(ts.take(i as int), text_norm@),
            decreases self.terms.len() - i,
        {
            proof {
                assert(ts.take(i + 1).drop_last() =~= ts.take(i as int));
            }
            let key = chars_of(self.terms[i].0.as_str());
            let term_norm = normalize_exec(&key);
            let found = crate::text::find_from_exec(&text_norm, &term_norm, 0).is_some();
            if found {
                let line = chars_of(self.terms[i].1.as_str());
                crate::text::push_all(&mut result, &line);
                result.push('\n');
                assert(result@ =~= matching_terms(ts.take(i as int), text_norm@) + line@.push('\n'));
            }
            i += 1;
        }
        proof {
            assert(ts.take(self.terms.len() as int) =~= ts);
        }
        string_of(&result)
    }
}

/// The DeepL API base URL for an API key: free keys end with `:fx`.
pub open spec fn spec_deepl_api_base(api_key: Seq<char>) -> Seq<char> {
    if crate::text::ends_with(api_key, ":fx"@) {
        "https://api-free.deepl.com"@
    } else {
        "https://api.deepl.com"@
    }
}

/// Return the DeepL API base URL for the API key: free keys end with `:fx` and use
/// api-free.deepl.com.
pub fn deepl_api_base(api_key: &str) -> (r: &'static str)
    ensures
        r@ == spec_deepl_api_base(api_key@),
{
    let k = chars_of(api_key);
    let fx = chars_of(":fx");
    if crate::text::ends_with_exec(&k, &fx) {
        "https://api-free.deepl.com"
    } else {
        "https://api.deepl.com"
    }
}

/// Whether the English side of a glossary entry offers several translations: it holds
/// a slash, or a `, ` outside parentheses.
pub open spec fn is_ambiguous(en_side: Seq<char>) -> bool {
    contains(en_side, " / "@) || contains(en_side, "/"@) || contains(
        strip_all(Pat::Paren, en_side),
        ", "@,
    )
}

fn is_ambiguous_exec(en_side: &[char]) -> (r: bool)
    ensures
        r == is_ambiguous(en_side@),
{
    contains_exec(en_side, " / ") || contains_exec(en_side, "/") || contains_exec(
        &strip_all_exec(&Pat::Paren, en_side),
        ", ",
    )
}

/// The term lines whose English side is ambiguous.
pub open spec fn ambiguous_lines(terms: Seq<(Seq<char>, Seq<char>)>) -> Seq<Seq<char>>
    decreases terms.len(),
{
    if terms.len() == 0 {
        Seq::empty()
    } else {
        let rest = ambiguous_lines(terms.drop_last());
        let line = terms.last().1;
        match crate::text::after_first(line, " = "@) {
            Some(en) => if is_ambiguous(en) {
                rest.push(line)
            } else {
                rest
            },
            None => rest,
        }
    }
}

/// The header of the DeepL context built from ambiguous glossary entries.
pub const AMBIGUOUS_HEADER: &'static str =
    "Translation glossary for context-dependent terms (choose the appropriate translation):\n";

/// The DeepL context for ambiguous terms: the header, each ambiguous line with a line
/// break, then (if there is one) a blank line and the general sections.
pub open spec fn spec_deepl_ambiguous_context(terms: Seq<(Seq<char>, Seq<char>)>, general: Seq<char>) -> Seq<char> {
    let ls = ambiguous_lines(terms);
    if ls.len() == 0 {
        Seq::empty()
    } else {
        AMBIGUOUS_HEADER@ + crate::text::concat(ls.map_values(|l: Seq<char>| l.push('\n'))) + if general.len() > 0 {
            seq!['\n'] + general
        } else {
            Seq::empty()
        }
    }
}

/// Build context text from ambiguous glossary entries for use with DeepL's context
/// parameter.
pub fn deepl_ambiguous_context(glossary: &Glossary) -> (r: String)
    ensures
        r@ == spec_deepl_ambiguous_context(glossary.spec_terms(), glossary.spec_general()),
{
    let terms = glossary.term_entries();
    let ghost ts = glossary.spec_terms();
    let mut ls: Vec<Vec<char>> = Vec::new();
    let mut i: usize = 0;
    while i < terms.len()
        invariant
            i <= terms.len(),
            ts == term_views(terms@),
            views(ls@) == ambiguous_lines(ts.take(i as int)),
        decreases terms.len() - i,
    {
        proof {
            assert(ts.take(i + 1).drop_last() =~= ts.take(i as int));
        }
        let line = chars_of(terms[i].1.as_str());
        match crate::text::after_first_exec(&line, " = ") {
            Some(en) => {
                if is_ambiguous_exec(&en) {
                    let ghost before = ls@;
                    ls.push(line);
                    assert(views(ls@) =~= views(before).push(ts[i as int].1));
                }
            },
            None => {},
        }
        i += 1;
    }
    proof {
        assert(ts.take(terms.len() as int) =~= ts);
    }
    if ls.len() == 0 {
        return String::new();
    }
    let mut ctx = chars_of(AMBIGUOUS_HEADER);
    let ghost lv = views(ls@);
    let mut k: usize = 0;
    while k < ls.len()
        invariant
            k <= ls.len(),
            lv == views(ls@),
            ctx@ == AMBIGUOUS_HEADER@ + crate::text::concat(
                lv.take(k as int).map_values(|l: Seq<char>| l.push('\n')),
            ),
        decreases ls.len() - k,
    {
        proof {
            assert(lv.take(k + 1).map_values(|l: Seq<char>| l.push('\n')).drop_last() =~= lv.take(
                k as int,
            ).map_values(|l: Seq<char>| l.push('\n')));
        }
        crate::text::push_all(&mut ctx, &ls[k]);
        ctx.push('\n');
        assert(ctx@ =~= AMBIGUOUS_HEADER@ + crate::text::concat(
            lv.take(k as int).map_values(|l: Seq<char>| l.push('\n')),
        ) + lv[k as int].push('\n'));
        k += 1;
    }
    proof {
        assert(lv.take(ls.len() as int) =~= lv);
    }
    let general = chars_of(glossary.general_section());
    if general.len() > 0 {
        ctx.push('\n');
        crate::text::push_all(&mut ctx, &general);
    }
    string_of(&ctx)
}


// ---------------------------------------------------------------------------
// DeepL glossary entries
// ---------------------------------------------------------------------------

/// The tab-separated entries for a DeepL glossary built from the unambiguous terms,
/// the number of ambiguous terms skipped, and the German keys already used: for each
/// term line holding ` = ` whose English side is not ambiguous, the English side with
/// its parentheticals (and the white space around them) replaced by a space and then
/// trimmed; an entry is written for the first use of each German key only.
pub open spec fn tsv_fold(terms: Seq<(Seq<char>, Seq<char>)>) -> (Seq<char>, nat, Seq<Seq<char>>)
    decreases terms.len(),
{
    if terms.len() == 0 {
        (Seq::empty(), 0, Seq::empty())
    } else {
        let (tsv, amb, seen) = tsv_fold(terms.drop_last());
        let line = terms.last().1;
        match crate::text::after_first(line, " = "@) {
            None => (tsv, amb, seen),
            Some(en) => if is_ambiguous(en) {
                (tsv, amb + 1, seen)
            } else {
                let clean = trim(subst_all(Pat::ParenWs, " "@, en));
                if clean.len() == 0 {
                    (tsv, amb, seen)
                } else {
                    let key = term_key_source(line);
                    if seen.contains(key) {
                        (tsv, amb, seen)
                    } else {
                        (tsv + key + seq!['\t'] + clean + seq!['\n'], amb, seen.push(key))
                    }
                }
            },
        }
    }
}

/// Each glossary entry goes either to the table or to the context: the entries the
/// table leaves out as ambiguous are exactly the lines of the context, in number.
pub proof fn lemma_ambiguous_entries_go_to_context(terms: Seq<(Seq<char>, Seq<char>)>)
    ensures
        tsv_fold(terms).1 == ambiguous_lines(terms).len(),
    decreases terms.len(),
{
    if terms.len() > 0 {
        lemma_ambiguous_entries_go_to_context(terms.drop_last());
    }
}

fn seen_contains(seen: &Vec<Vec<char>>, key: &[char]) -> (r: bool)
    ensures
        r == views(seen@).contains(key@),
{
    let mut i: usize = 0;
    while i < seen.len()
        invariant
            i <= seen.len(),
            forall|k: int| 0 <= k < i ==> seen@[k]@ != key@,
        decreases seen.len() - i,
    {
        if chars_eq(&seen[i], key) {
            assert(views(seen@)[i as int] == key@);
            return true;
        }
        i += 1;
    }
    assert(!views(seen@).contains(key@)) by {
        if views(seen@).contains(key@) {
            let k = choose|k: int| 0 <= k < views(seen@).len() && views(seen@)[k] == key@;
            assert(seen@[k]@ == key@);
        }
    }
    false
}

/// The DeepL glossary entries (tab-separated, one per line) for the unambiguous terms,
/// and the number of ambiguous terms, which are passed as context instead.
pub fn deepl_glossary_entries(glossary: &Glossary) -> (r: (String, usize))
    ensures
        r.0@ == tsv_fold(glossary.spec_terms()).0,
        r.1 == tsv_fold(glossary.spec_terms()).1,
{
    let terms = glossary.term_entries();
    let ghost ts = glossary.spec_terms();
    let mut tsv: Vec<char> = Vec::new();
    let mut amb: usize = 0;
    let mut seen: Vec<Vec<char>> = Vec::new();
    let mut i: usize = 0;
    while i < terms.len()
        invariant
            i <= terms.len(),
            ts == term_views(terms@),
            (tsv@, amb as nat, views(seen@)) == tsv_fold(ts.take(i as int)),
            amb <= i,
        decreases terms.len() - i,
    {
        proof {
            assert(ts.take(i + 1).drop_last() =~= ts.take(i as int));
        }
        let line = chars_of(terms[i].1.as_str());
        match crate::text::after_first_exec(&line, " = ") {
            None => {},
            Some(en) => {
                if is_ambiguous_exec(&en) {
                    amb += 1;
                } else {
                    let replaced = subst_all_exec(&Pat::ParenWs, " ", &en);
                    let clean = trim_exec(&replaced);
                    if clean.len() > 0 {
                        let de = trim_exec(&crate::text::before_first_exec(&line, " = "));
                        let key = crate::text::before_first_exec(&de, " (");
                        if !seen_contains(&seen, &key) {
                            crate::text::push_all(&mut tsv, &key);
                            tsv.push('\t');
                            crate::text::push_all(&mut tsv, &clean);
                            tsv.push('\n');
                            let ghost before = seen@;
                            seen.push(key);
                            assert(views(seen@) =~= views(before).push(key@));
                        }
                    }
                }
            },
        }
        i += 1;
    }
    proof {
        assert(ts.take(terms.len() as int) =~= ts);
    }
    (string_of(&tsv), amb)
}

// ---------------------------------------------------------------------------
// Emphasis markers
// ---------------------------------------------------------------------------

/// `_emphasis_` as `<em>emphasis</em>` and `**bold**` as `<strong>bold</strong>`.
pub open spec fn spec_emphasis_to_html(text: Seq<char>) -> Seq<char> {
    wrap_all(Pat::Em, "<em>"@, "</em>"@, wrap_all(Pat::Bold, "<strong>"@, "</strong>"@, text))
}


/// Convert `_emphasis_` to `<em>emphasis</em>` and `**bold**` to `<strong>bold</strong>`.
/// The model preserves HTML tags more reliably than Markdown emphasis markers.
pub fn emphasis_to_html(text: &str) -> (r: String)
    ensures
        r@ == spec_emphasis_to_html(text@),
{
    let t = chars_of(text);
    let b = wrap_all_exec(&Pat::Bold, "<strong>", "</strong>", &t);
    string_of(&wrap_all_exec(&Pat::Em, "<em>", "</em>", &b))
}

/// `<em>`/`</em>` back to `_` and `<strong>`/`</strong>` back to `**`.
pub open spec fn spec_emphasis_from_html(text: Seq<char>) -> Seq<char> {
    crate::text::replace(
        crate::text::replace(
            crate::text::replace(crate::text::replace(text, "<em>"@, "_"@), "</em>"@, "_"@),
            "<strong>"@,
            "**"@,
        ),
        "</strong>"@,
        "**"@,
    )
}

/// Convert `<em>emphasis</em>` back to `_emphasis_` and `<strong>bold</strong>` back to
/// `**bold**`.
pub fn emphasis_from_html(text: &str) -> (r: String)
    ensures
        r@ == spec_emphasis_from_html(text@),
{
    proof {
        reveal_strlit("<em>");
        reveal_strlit("</em>");
        reveal_strlit("<strong>");
        reveal_strlit("</strong>");
    }
    let t = chars_of(text);
    let a = crate::text::replace_exec(&t, "<em>", "_");
    let b = crate::text::replace_exec(&a, "</em>", "_");
    let c = crate::text::replace_exec(&b, "<strong>", "**");
    string_of(&crate::text::replace_exec(&c, "</strong>", "**"))
}

/// The marker that stands in for `**` while single asterisks are converted.
pub const BOLD_SENTINEL: &'static str = "\u{FFFE}BOLD\u{FFFE}";

/// Emphasis markers of a translation repaired against its German original: if the
/// German has no `**`, every `**text**` becomes `_text_`; then single `*text*` becomes
/// `_text_` (with `**` protected); finally `&amp;` becomes `&`.
pub open spec fn spec_fix_emphasis_markers(translated: Seq<char>, german: Seq<char>) -> Seq<char> {
    let text = if !contains(german, "**"@) {
        wrap_all(Pat::BoldLazy, "_"@, "_"@, translated)
    } else {
        translated
    };
    let protected = crate::text::replace(text, "**"@, BOLD_SENTINEL@);
    let fixed = wrap_all(Pat::Star, "_"@, "_"@, protected);
    crate::text::replace(crate::text::replace(fixed, BOLD_SENTINEL@, "**"@), "&amp;"@, "&"@)
}

/// Fix emphasis markers in translated text based on what the German original uses:
/// single `*word*` becomes `_word_`, and `**word**` becomes `_word_` if the German has
/// no `**`.
pub fn fix_emphasis_markers(translated: &str, german: &str) -> (r: String)
    ensures
        r@ == spec_fix_emphasis_markers(translated@, german@),
{
    proof {
        reveal_strlit("**");
        reveal_strlit("&amp;");
        reveal_strlit("\u{FFFE}BOLD\u{FFFE}");
    }
    let t = chars_of(translated);
    let g = chars_of(german);
    let text = if !contains_exec(&g, "**") {
        wrap_all_exec(&Pat::BoldLazy, "_", "_", &t)
    } else {
        t
    };
    let protected = crate::text::replace_exec(&text, "**", BOLD_SENTINEL);
    let fixed = wrap_all_exec(&Pat::Star, "_", "_", &protected);
    let result = crate::text::replace_exec(&fixed, BOLD_SENTINEL, "**");
    string_of(&crate::text::replace_exec(&result, "&amp;", "&"))
}

/// The emphasized passages of `s` listed by `hs`, each wrapped in `open` … `close`.
pub open spec fn wrapped_contents(s: Seq<char>, hs: Seq<Span>, mark: Seq<char>) -> Seq<Seq<char>>
    decreases hs.len(),
{
    if hs.len() == 0 {
        Seq::empty()
    } else {
        wrapped_contents(s, hs.drop_last(), mark).push(mark + content(s, hs.last()) + mark)
    }
}

/// All `_emphasized_` passages followed by all `**bold**` passages of `text`.
pub open spec fn emphasis_passages(text: Seq<char>) -> Seq<Seq<char>> {
    wrapped_contents(text, hits(Pat::Em, text), "_"@) + wrapped_contents(
        text,
        hits(Pat::Bold, text),
        "**"@,
    )
}

/// The first part of the emphasis checklist, before the count.
pub const CHECKLIST_A: &'static str = "The input contains ";

/// The part of the emphasis checklist between the count and the passages.
pub const CHECKLIST_B: &'static str =
    " emphasized passage(s) wrapped in _underscores_ or **double asterisks**: ";

/// The end of the emphasis checklist.
pub const CHECKLIST_C: &'static str =
    ".\nYour translation MUST wrap the English translations of these exact words in the same markers (_underscores_ or **double asterisks**).\n\n";

/// The emphasis checklist for a text: empty if it has no emphasized passage, else a
/// sentence giving their number and listing them separated by `, `.
pub open spec fn spec_emphasis_checklist(text: Seq<char>) -> Seq<char> {
    let ps = emphasis_passages(text);
    if ps.len() == 0 {
        Seq::empty()
    } else {
        CHECKLIST_A@ + crate::text::decimal(ps.len()) + CHECKLIST_B@ + join(ps, ", "@)
            + CHECKLIST_C@
    }
}

fn wrapped_contents_exec(p: &Pat, s: &[char], mark: &str) -> (r: Vec<Vec<char>>)
    ensures
        views(r@) == wrapped_contents(s@, hits(*p, s@), mark@),
{
    let hs = hits_exec(p, s);
    let m = chars_of(mark);
    let mut out: Vec<Vec<char>> = Vec::new();
    let mut i: usize = 0;
    while i < hs.len()
        invariant
            i <= hs.len(),
            m@ == mark@,
            svs(hs@) == hits(*p, s@),
            spans_within(hs@, s.len() as int),
            views(out@) == wrapped_contents(s@, svs(hs@).take(i as int), mark@),
        decreases hs.len() - i,
    {
        proof {
            assert(svs(hs@).take(i + 1).drop_last() =~= svs(hs@).take(i as int));
            assert(svs(hs@).take(i + 1).last() == sv(hs@[i as int]));
        }
        let h = hs[i];
        let mut w: Vec<char> = crate::text::copy_chars(&m);
        let g = slice_chars(s, h.1, h.2);
        crate::text::push_all(&mut w, &g);
        crate::text::push_all(&mut w, &m);
        let ghost before = out@;
        out.push(w);
        assert(views(out@) =~= views(before).push(w@));
        i += 1;
    }
    assert(svs(hs@).take(hs.len() as int) =~= svs(hs@));
    out
}

/// Extract all `_emphasized_` and `**bold**` passages from the text. Returns a prompt
/// fragment listing them, or an empty string if none are found.
pub fn emphasis_checklist(text: &str) -> (r: String)
    ensures
        r@ == spec_emphasis_checklist(text@),
{
    let t = chars_of(text);
    let mut ps = wrapped_contents_exec(&Pat::Em, &t, "_");
    let bs = wrapped_contents_exec(&Pat::Bold, &t, "**");
    let ghost pv = views(ps@);
    let mut k: usize = 0;
    while k < bs.len()
        invariant
            k <= bs.len(),
            views(ps@) == pv + views(bs@).take(k as int),
        decreases bs.len() - k,
    {
        let w = copy_chars(&bs[k]);
        let ghost before = ps@;
        ps.push(w);
        assert(views(ps@) =~= views(before).push(w@));
        assert(views(bs@).take(k + 1) =~= views(bs@).take(k as int).push(w@));
        k += 1;
    }
    assert(views(bs@).take(bs.len() as int) =~= views(bs@));
    if ps.len() == 0 {
        return String::new();
    }
    let mut out = chars_of(CHECKLIST_A);
    crate::text::push_decimal(&mut out, ps.len() as u64);
    crate::text::push_str(&mut out, CHECKLIST_B);
    let sep = chars_of(", ");
    let j = join_exec(&ps, &sep);
    crate::text::push_all(&mut out, &j);
    crate::text::push_str(&mut out, CHECKLIST_C);
    string_of(&out)
}

// ---------------------------------------------------------------------------
// Math placeholders
// ---------------------------------------------------------------------------

/// The placeholder for the `n`-th math block: `⟦MATH:n⟧`.
pub open spec fn placeholder(n: nat) -> Seq<char> {
    "\u{27E6}MATH:"@ + crate::text::decimal(n) + "\u{27E7}"@
}

/// The text from index `i` on with each math block replaced by its placeholder
/// (numbered from `n + 1`), and the math blocks in order.
pub open spec fn math_scan(s: Seq<char>, i: int, n: nat) -> (Seq<char>, Seq<Seq<char>>)
    decreases s.len() - i,
{
    if i < 0 || i >= s.len() {
        (Seq::empty(), Seq::empty())
    } else {
        match crate::markup::hit(Pat::MathBlock, s, i) {
            Some(h) => {
                let (t, bs) = math_scan(s, h.0, n + 1);
                (placeholder(n + 1) + t, seq![s.subrange(i, h.0)] + bs)
            },
            None => {
                let (t, bs) = math_scan(s, i + 1, n);
                (seq![s[i]] + t, bs)
            },
        }
    }
}

/// The text with its `<math>…</math>` blocks replaced by numbered placeholders, and
/// the blocks.
pub open spec fn spec_extract_math(text: Seq<char>) -> (Seq<char>, Seq<Seq<char>>) {
    math_scan(text, 0, 0)
}

pub(crate) fn placeholder_exec(n: u64) -> (r: Vec<char>)
    ensures
        r@ == placeholder(n as nat),
{
    let mut v = chars_of("\u{27E6}MATH:");
    crate::text::push_decimal(&mut v, n);
    crate::text::push_str(&mut v, "\u{27E7}");
    v
}

/// The view of a vector of strings.
pub open spec fn string_views(v: Seq<String>) -> Seq<Seq<char>> {
    v.map_values(|x: String| x@)
}

/// Extract `<math>...</math>` blocks and replace them with placeholders.
pub fn extract_math(text: &str) -> (r: (String, Vec<String>))
    ensures
        (r.0@, string_views(r.1@)) == spec_extract_math(text@),
{
    let s = chars_of(text);
    let mut out: Vec<char> = Vec::new();
    let mut blocks: Vec<String> = Vec::new();
    let mut i: usize = 0;
    while i < s.len()
        invariant
            i <= s.len(),
            s@ == text@,
            blocks.len() <= i,
            out@ + math_scan(s@, i as int, blocks.len() as nat).0 == math_scan(s@, 0, 0).0,
            string_views(blocks@) + math_scan(s@, i as int, blocks.len() as nat).1 == math_scan(
                s@,
                0,
                0,
            ).1,
        decreases s.len() - i,
    {
        let ghost n = blocks.len() as nat;
        let ghost ob = out@;
        let ghost bb = string_views(blocks@);
        match crate::markup::hit_exec(&Pat::MathBlock, &s, i) {
            Some(h) => {
                let ph = placeholder_exec((blocks.len() + 1) as u64);
                crate::text::push_all(&mut out, &ph);
                let block = slice_chars(&s, i, h.0);
                blocks.push(string_of(&block));
                assert(string_views(blocks@) =~= bb.push(block@));
                assert(ob + (placeholder(n + 1) + math_scan(s@, h.0 as int, n + 1).0) =~= out@
                    + math_scan(s@, h.0 as int, n + 1).0);
                assert(bb + (seq![block@] + math_scan(s@, h.0 as int, n + 1).1) =~= string_views(
                    blocks@,
                ) + math_scan(s@, h.0 as int, n + 1).1);
                i = h.0;
            },
            None => {
                out.push(s[i]);
                assert(ob + (seq![s@[i as int]] + math_scan(s@, i + 1, n).0) =~= out@ + math_scan(
                    s@,
                    i + 1,
                    n,
                ).0);
                i += 1;
            },
        }
    }
    assert(out@ + Seq::<char>::empty() =~= out@);
    assert(string_views(blocks@) + Seq::<Seq<char>>::empty() =~= string_views(blocks@));
    (string_of(&out), blocks)
}

/// `s` with the first occurrence of `pat` replaced by `rep` (`str::replacen(.., 1)`).
pub open spec fn replace_first(s: Seq<char>, pat: Seq<char>, rep: Seq<char>) -> Seq<char> {
    match crate::text::find_from(s, pat, 0) {
        Some(j) => s.subrange(0, j) + rep + s.subrange(j + pat.len(), s.len() as int),
        None => s,
    }
}

/// `text` with the placeholders of `blocks` (numbered from 1) replaced in turn, each
/// at its first occurrence.
pub open spec fn restore_fold(text: Seq<char>, blocks: Seq<Seq<char>>) -> Seq<char>
    decreases blocks.len(),
{
    if blocks.len() == 0 {
        text
    } else {
        replace_first(
            restore_fold(text, blocks.drop_last()),
            placeholder(blocks.len() as nat),
            blocks.last(),
        )
    }
}

pub(crate) fn replace_first_exec(s: &[char], pat: &[char], rep: &[char]) -> (r: Vec<char>)
    ensures
        r@ == replace_first(s@, pat@, rep@),
{
    match crate::text::find_from_exec(s, pat, 0) {
        Some(j) => {
            proof {
                crate::text::lemma_find_from(s@, pat@, 0);
            }
            let n = pat.len();
            assert(matches_at(s@, pat@, j as int));
            assert(j + n <= s.len());
            let mut out = slice_chars(s, 0, j);
            crate::text::push_all(&mut out, rep);
            let tail = slice_chars(s, j + n, s.len());
            crate::text::push_all(&mut out, &tail);
            out
        },
        None => copy_chars(s),
    }
}

/// Restore math placeholders with the original blocks.
pub fn restore_math(text: &str, blocks: &[String]) -> (r: String)
    ensures
        r@ == restore_fold(text@, string_views(blocks@)),
{
    let mut result = chars_of(text);
    let ghost bv = string_views(blocks@);
    let mut i: usize = 0;
    while i < blocks.len()
        invariant
            i <= blocks.len(),
            bv == string_views(blocks@),
            result@ == restore_fold(text@, bv.take(i as int)),
        decreases blocks.len() - i,
    {
        proof {
            assert(bv.take(i + 1).drop_last() =~= bv.take(i as int));
        }
        let ph = placeholder_exec((i + 1) as u64);
        let b = chars_of(blocks[i].as_str());
        result = replace_first_exec(&result, &ph, &b);
        i += 1;
    }
    assert(bv.take(blocks.len() as int) =~= bv);
    string_of(&result)
}


/// Whether `s` holds no `⟦`, the first character of every math placeholder.
pub open spec fn no_placeholder_mark(s: Seq<char>) -> bool {
    forall|k: int| 0 <= k < s.len() ==> s[k] != '\u{27E6}'
}

/// The scan from `p` either finds no more math blocks, or finds the next one at
/// `q..q2` and goes on after it.
proof fn lemma_scan_step(s: Seq<char>, p: int, n: nat)
    requires
        0 <= p <= s.len(),
    ensures
        ({
            let (t, bs) = math_scan(s, p, n);
            (bs.len() == 0 && t == s.subrange(p, s.len() as int)) || exists|q: int, q2: int|
                #![trigger s.subrange(p, q), s.subrange(q, q2)]
                p <= q < q2 <= s.len() && t == s.subrange(p, q) + placeholder(n + 1) + math_scan(
                    s,
                    q2,
                    n + 1,
                ).0 && bs == seq![s.subrange(q, q2)] + math_scan(s, q2, n + 1).1
        }),
    decreases s.len() - p,
{
    if p < s.len() {
        match crate::markup::hit(Pat::MathBlock, s, p) {
            Some(h) => {
                assert(s.subrange(p, p) =~= Seq::<char>::empty());
                assert(s.subrange(p, p) + placeholder(n + 1) + math_scan(s, h.0, n + 1).0 =~= placeholder(
                    n + 1,
                ) + math_scan(s, h.0, n + 1).0);
            },
            None => {
                lemma_scan_step(s, p + 1, n);
                let (t1, bs1) = math_scan(s, p + 1, n);
                if bs1.len() == 0 && t1 == s.subrange(p + 1, s.len() as int) {
                    assert(seq![s[p]] + s.subrange(p + 1, s.len() as int) =~= s.subrange(
                        p,
                        s.len() as int,
                    ));
                } else {
                    let (q, q2) = choose|q: int, q2: int|
                        #![trigger s.subrange(p + 1, q), s.subrange(q, q2)]
                        p + 1 <= q < q2 <= s.len() && t1 == s.subrange(p + 1, q) + placeholder(n + 1)
                            + math_scan(s, q2, n + 1).0 && bs1 == seq![s.subrange(q, q2)] + math_scan(
                            s,
                            q2,
                            n + 1,
                        ).1;
                    assert(seq![s[p]] + (s.subrange(p + 1, q) + placeholder(n + 1) + math_scan(
                        s,
                        q2,
                        n + 1,
                    ).0) =~= s.subrange(p, q) + placeholder(n + 1) + math_scan(s, q2, n + 1).0);
                }
            }
        }
    } else {
        assert(s.subrange(p, s.len() as int) =~= Seq::<char>::empty());
    }
}

/// The first placeholder `P` in `x + P + y` is right after `x` when `x` holds no `⟦`.
proof fn lemma_first_placeholder(x: Seq<char>, n: nat, y: Seq<char>)
    requires
        no_placeholder_mark(x),
    ensures
        crate::text::find_from(x + placeholder(n) + y, placeholder(n), 0) == Some(x.len() as int),
{
    reveal_strlit("\u{27E6}MATH:");
    let p = placeholder(n);
    let t = x + p + y;
    assert(p[0] == '\u{27E6}');
    assert(t.subrange(x.len() as int, (x.len() + p.len()) as int) =~= p);
    crate::text::lemma_find_from(t, p, 0);
    match crate::text::find_from(t, p, 0) {
        Some(j) => {
            if j < x.len() {
                assert(t.subrange(j, j + p.len())[0] == p[0]);
                assert(t[j] == x[j]);
            }
            if j > x.len() {
                assert(crate::text::matches_at(t, p, x.len() as int));
            }
        },
        None => {
            assert(crate::text::matches_at(t, p, x.len() as int));
        },
    }
}

/// Restoring the placeholders after the first `k` (whose blocks were restored up to
/// `p`) gives the text back.
#[verifier::spinoff_prover]
#[verifier::rlimit(30)]
proof fn lemma_restore_rest(text: Seq<char>, t: Seq<char>, bs: Seq<Seq<char>>, p: int, k: nat)
    requires
        0 <= p <= text.len(),
        k <= bs.len(),
        no_placeholder_mark(text),
        restore_fold(t, bs.take(k as int)) == text.subrange(0, p) + math_scan(text, p, k).0,
        bs.skip(k as int) == math_scan(text, p, k).1,
    ensures
        restore_fold(t, bs) == text,
    decreases bs.len() - k,
{
    lemma_scan_step(text, p, k);
    let (tk, bk) = math_scan(text, p, k);
    if k == bs.len() {
        assert(bk.len() == 0);
        assert(bs.take(k as int) =~= bs);
        assert(text.subrange(0, p) + text.subrange(p, text.len() as int) =~= text);
    } else {
        assert(bk.len() > 0);
        let (q, q2) = choose|q: int, q2: int|
            #![trigger text.subrange(p, q), text.subrange(q, q2)]
            p <= q < q2 <= text.len() && tk == text.subrange(p, q) + placeholder(k + 1) + math_scan(
                text,
                q2,
                k + 1,
            ).0 && bk == seq![text.subrange(q, q2)] + math_scan(text, q2, k + 1).1;
        let rest = math_scan(text, q2, k + 1).0;
        let x = text.subrange(0, q);
        let ph = placeholder(k + 1);
        assert(text.subrange(0, p) + tk =~= x + ph + rest);
        lemma_first_placeholder(x, k + 1, rest);
        assert(bs.take((k + 1) as int).drop_last() =~= bs.take(k as int));
        assert(bs[k as int] == bk[0]);
        let whole = x + ph + rest;
        assert(restore_fold(t, bs.take((k + 1) as int)) == replace_first(whole, ph, text.subrange(q, q2)));
        assert(whole.subrange(0, q) =~= x);
        assert(whole.subrange(q + ph.len(), whole.len() as int) =~= rest);
        assert(x + text.subrange(q, q2) + rest =~= text.subrange(0, q2) + rest);
        assert(bs.skip((k + 1) as int) =~= bk.drop_first());
        assert(bk.drop_first() =~= math_scan(text, q2, k + 1).1);
        lemma_restore_rest(text, t, bs, q2, k + 1);
    }
}

/// Extracting the math blocks of a text and restoring them gives the text back, when
/// the text holds no `⟦` (the character that opens placeholders).
pub proof fn lemma_math_round_trip(text: Seq<char>)
    requires
        no_placeholder_mark(text),
    ensures
        restore_fold(spec_extract_math(text).0, spec_extract_math(text).1) == text,
{
    let (t, bs) = math_scan(text, 0, 0);
    assert(bs.take(0) =~= Seq::<Seq<char>>::empty());
    assert(text.subrange(0, 0) + t =~= t);
    assert(bs.skip(0) =~= bs);
    lemma_restore_rest(text, t, bs, 0, 0);
}

// ---------------------------------------------------------------------------
// Sentence segments
// ---------------------------------------------------------------------------

/// Sentence-ending punctuation: `.`, `?`, `!` or an en dash.
pub open spec fn is_seg_punct(c: char) -> bool {
    c == '.' || c == '?' || c == '!' || c == '\u{2013}'
}

/// A character that may begin a sentence: an uppercase letter, a German or English
/// opening quote, or `(`.
pub open spec fn opens_sentence(c: char) -> bool {
    crate::text::uppercase(c) || c == '\u{201e}' || c == '\u{201c}' || c == '('
}

/// The finished segments and the start of the current one after looking at the first
/// `n` characters: a segment ends after punctuation followed by white space and a
/// character that opens a sentence; the white space stays with the ended segment,
/// which is trimmed.
pub open spec fn seg_fold(s: Seq<char>, n: int) -> (Seq<Seq<char>>, int)
    decreases n,
{
    if n <= 0 || n > s.len() {
        (Seq::empty(), 0)
    } else {
        let (segs, start) = seg_fold(s, n - 1);
        let i = n - 1;
        if is_seg_punct(s[i]) {
            let j = crate::markup::ws_end(s, i + 1);
            if j < s.len() && j > i + 1 && opens_sentence(s[j]) && 0 <= start <= j {
                (segs.push(trim(s.subrange(start, j))), j)
            } else {
                (segs, start)
            }
        } else {
            (segs, start)
        }
    }
}

/// The sentence segments of `text`: the ended segments, then the trimmed rest if it is
/// not empty; the whole text if that gives none.
pub open spec fn spec_split_segments(text: Seq<char>) -> Seq<Seq<char>> {
    let (segs, start) = seg_fold(text, text.len() as int);
    let rem = if 0 <= start <= text.len() {
        trim(text.subrange(start, text.len() as int))
    } else {
        Seq::empty()
    };
    let all = if rem.len() > 0 {
        segs.push(rem)
    } else {
        segs
    };
    if all.len() == 0 {
        seq![text]
    } else {
        all
    }
}

fn opens_sentence_exec(c: char) -> (r: bool)
    ensures
        r == opens_sentence(c),
{
    crate::text::is_uppercase(c) || c == '\u{201e}' || c == '\u{201c}' || c == '('
}

/// Split text into segments at sentence boundaries (`.` `?` `!` `–` followed by white
/// space and an uppercase letter, opening quote or parenthesis).
pub fn split_segments(text: &str) -> (r: Vec<String>)
    ensures
        string_views(r@) == spec_split_segments(text@),
{
    let s = chars_of(text);
    let mut segs: Vec<Vec<char>> = Vec::new();
    let mut start: usize = 0;
    let mut i: usize = 0;
    while i < s.len()
        invariant
            i <= s.len(),
            s@ == text@,
            (views(segs@), start as int) == seg_fold(s@, i as int),
            start <= s.len(),
        decreases s.len() - i,
    {
        let c = s[i];
        if c == '.' || c == '?' || c == '!' || c == '\u{2013}' {
            let j = crate::markup::ws_end_exec(&s, i + 1);
            if j < s.len() && j > i + 1 && opens_sentence_exec(s[j]) && start <= j {
                let seg = trim_exec(&slice_chars(&s, start, j));
                let ghost before = segs@;
                segs.push(seg);
                assert(views(segs@) =~= views(before).push(seg@));
                start = j;
            }
        }
        i += 1;
    }
    let rem = trim_exec(&slice_chars(&s, start, s.len()));
    if rem.len() > 0 {
        let ghost before = segs@;
        segs.push(rem);
        assert(views(segs@) =~= views(before).push(rem@));
    }
    let mut out: Vec<String> = Vec::new();
    if segs.len() == 0 {
        out.push(string_of(&s));
        assert(string_views(out@) =~= seq![text@]);
        return out;
    }
    let mut k: usize = 0;
    while k < segs.len()
        invariant
            k <= segs.len(),
            string_views(out@) == views(segs@).take(k as int),
        decreases segs.len() - k,
    {
        let ghost before = out@;
        out.push(string_of(&segs[k]));
        assert(string_views(out@) =~= string_views(before).push(segs@[k as int]@));
        assert(views(segs@).take(k + 1) =~= views(segs@).take(k as int).push(segs@[k as int]@));
        k += 1;
    }
    assert(views(segs@).take(segs.len() as int) =~= views(segs@));
    out
}

/// Whether a segment carries emphasis: it holds `_` or `**`.
pub open spec fn is_emphasized(seg: Seq<char>) -> bool {
    contains(seg, "_"@) || contains(seg, "**"@)
}

/// The number of segments that carry emphasis.
pub open spec fn count_emphasized(segs: Seq<Seq<char>>) -> nat
    decreases segs.len(),
{
    if segs.len() == 0 {
        0
    } else {
        count_emphasized(segs.drop_last()) + if is_emphasized(segs.last()) {
            1nat
        } else {
            0nat
        }
    }
}

/// Count segments in the German text that contain emphasis markers (`_` or `**`).
pub fn count_emphasized_segments(german: &str) -> (n: usize)
    ensures
        n == count_emphasized(spec_split_segments(german@)),
{
    let segs = split_segments(german);
    let ghost sv = string_views(segs@);
    let mut n: usize = 0;
    let mut i: usize = 0;
    while i < segs.len()
        invariant
            i <= segs.len(),
            sv == string_views(segs@),
            n == count_emphasized(sv.take(i as int)),
            n <= i,
        decreases segs.len() - i,
    {
        assert(sv.take(i + 1).drop_last() =~= sv.take(i as int));
        let seg = chars_of(segs[i].as_str());
        if contains_exec(&seg, "_") || contains_exec(&seg, "**") {
            n += 1;
        }
        i += 1;
    }
    assert(sv.take(segs.len() as int) =~= sv);
    n
}

// ---------------------------------------------------------------------------
// Prompts
// ---------------------------------------------------------------------------

/// The fixed part of the translation system prompt.
pub const SYSTEM_PROMPT: &'static str = "Translate German to idiomatic English. Scholarly register, Wittgenstein specialist.\n\n\
         Rules:\n\
         1. Translate the ENTIRE input \u{2014} every sentence. Do not add content not in the original.\n\
         2. Preserve _underscores_ and **double asterisks** exactly. Same count in translation.\n\
         3. Copy HTML tags (<sup>, <s>, <em>, etc.) and \u{27E6}MATH:N\u{27E7} placeholders verbatim.\n\
         4. Use English curly quotes \u{201c}...\u{201d}, never ASCII \". Keep \"&\" for \"and\".\n\
         5. Do not translate proper names. Preserve all Unicode characters exactly.\n\
         6. Output only the translation.\n\n\
         Example:\n\
         Input: Er hat den 2<sup>ten</sup> \u{201e}Band\u{201c} gelesen & _wichtige_ Notizen \u{27E6}MATH:1\u{27E7} gemacht.\n\
         Output: He read the 2<sup>ten</sup> \u{201c}volume\u{201d} & made _important_ notes \u{27E6}MATH:1\u{27E7}.";

/// The system prompt: the fixed rules, then (if given) a blank line and the general
/// glossary principles.
pub open spec fn spec_translation_system_prompt(general: Seq<char>) -> Seq<char> {
    if general.len() > 0 {
        SYSTEM_PROMPT@ + "\n\n"@ + general
    } else {
        SYSTEM_PROMPT@
    }
}

/// Build the translation system prompt with general glossary principles baked in.
pub fn translation_system_prompt(general_glossary: &str) -> (r: String)
    ensures
        r@ == spec_translation_system_prompt(general_glossary@),
{
    let mut msg = chars_of(SYSTEM_PROMPT);
    let g = chars_of(general_glossary);
    if g.len() > 0 {
        crate::text::push_str(&mut msg, "\n\n");
        crate::text::push_all(&mut msg, &g);
    }
    string_of(&msg)
}

/// The introduction of a glossary section in a user message.
pub const GLOSSARY_INTRO: &'static str = "Use the following glossary for established translations \
             of key philosophical terms. Follow these conventions strictly:\n\n";

/// The introduction of the context in a user message.
pub const CONTEXT_INTRO: &'static str = "Context (already translated preceding remarks):\n\n";

/// The separator between context remarks.
pub const CONTEXT_SEP: &'static str = "\n\n---\n\n";

/// The line after the context, before the text.
pub const CONTEXT_END: &'static str = "\n\n---\n\nTranslate the following:\n\n";

/// The user message: the glossary section (if any), the emphasis checklist, the
/// context remarks (if any) and the text.
pub open spec fn spec_translation_user_msg(
    text: Seq<char>,
    context: Seq<Seq<char>>,
    glossary_section: Seq<char>,
) -> Seq<char> {
    (if glossary_section.len() > 0 {
        GLOSSARY_INTRO@ + glossary_section + "\n\n"@
    } else {
        Seq::empty()
    }) + spec_emphasis_checklist(text) + (if context.len() > 0 {
        CONTEXT_INTRO@ + join(context, CONTEXT_SEP@) + CONTEXT_END@
    } else {
        Seq::empty()
    }) + text
}

/// Build the user message for a translation request with context and filtered glossary.
pub fn translation_user_msg(text: &str, context: &[String], glossary_section: &str) -> (r: String)
    ensures
        r@ == spec_translation_user_msg(text@, string_views(context@), glossary_section@),
{
    let mut msg: Vec<char> = Vec::new();
    let gs = chars_of(glossary_section);
    if gs.len() > 0 {
        crate::text::push_str(&mut msg, GLOSSARY_INTRO);
        crate::text::push_all(&mut msg, &gs);
        crate::text::push_str(&mut msg, "\n\n");
    }
    let checklist = chars_of(&emphasis_checklist(text));
    crate::text::push_all(&mut msg, &checklist);
    let ghost after_checklist = msg@;
    if context.len() > 0 {
        crate::text::push_str(&mut msg, CONTEXT_INTRO);
        let mut parts: Vec<Vec<char>> = Vec::new();
        let mut i: usize = 0;
        while i < context.len()
            invariant
                i <= context.len(),
                views(parts@) == string_views(context@).take(i as int),
            decreases context.len() - i,
        {
            let c = chars_of(context[i].as_str());
            let ghost before = parts@;
            parts.push(c);
            assert(views(parts@) =~= views(before).push(c@));
            assert(string_views(context@).take(i + 1) =~= string_views(context@).take(i as int).push(c@));
            i += 1;
        }
        assert(string_views(context@).take(context.len() as int) =~= string_views(context@));
        let sep = chars_of(CONTEXT_SEP);
        let joined = join_exec(&parts, &sep);
        crate::text::push_all(&mut msg, &joined);
        crate::text::push_str(&mut msg, CONTEXT_END);
    }
    let t = chars_of(text);
    crate::text::push_all(&mut msg, &t);
    string_of(&msg)
}

} // verus!
