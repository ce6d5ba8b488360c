//! Reading works and source documents: which source remark each work remark comes
//! from, and where source documents break between remarks.
use vstd::prelude::*;
use crate::markup::{content, hits, hits_exec, svs, spans_within, Pat, Span};
use crate::search::slug::{spec_unescape_label, unescape_chars};
use crate::text::{
    chars_of, chars_eq, find_char, find_char_exec, join, join_exec, last_match, last_match_exec,
    lines, lines_exec, matches_at, matches_at_exec, slice_chars, starts_with, starts_with_exec,
    string_of, trim, trim_exec, views,
};
use crate::translate::common::{anchor_chars, anchor_chars_exec, string_views};

verus! {

/// A remark of a work: the source document it comes from and its anchor there.
pub struct WorkRemark {
    pub source_doc: String,
    pub source_anchor: String,
}

/// A work: its file name and its remarks in order.
pub struct Work {
    pub filename: String,
    pub remarks: Vec<WorkRemark>,
}

/// What appears between two consecutive remarks in a source document.
#[derive(Clone, Copy, Debug, PartialEq, Eq, Structural)]
pub enum RemarkBreak {
    /// Normal continuation (no separator, no large date gap).
    NoBreak,
    /// A `---` separator line within the preceding remark.
    Separator,
    /// A gap of more than 30 days between dated remarks.
    DateGap,
}

/// A source document: the anchor of each remark, and for each remark after the first
/// what kind of break precedes it.
pub struct SourceDoc {
    pub anchors: Vec<String>,
    pub breaks: Vec<RemarkBreak>,
}

/// A work remark found in a source document.
pub struct Correspondence {
    pub work_idx: usize,
    pub doc_name: String,
    pub source_idx: usize,
}

/// The source document and anchor of each remark of a work.
pub open spec fn work_view(w: Work) -> Seq<(Seq<char>, Seq<char>)> {
    w.remarks@.map_values(|r: WorkRemark| (r.source_doc@, r.source_anchor@))
}

// ---------------------------------------------------------------------------
// Anchors of source document headings
// ---------------------------------------------------------------------------

/// The unescaped texts of the links listed by `hs`.
pub open spec fn link_labels(s: Seq<char>, hs: Seq<Span>) -> Seq<Seq<char>>
    decreases hs.len(),
{
    if hs.len() == 0 {
        Seq::empty()
    } else {
        link_labels(s, hs.drop_last()).push(spec_unescape_label(content(s, hs.last())))
    }
}

/// The anchor of a source document heading: the texts of all its links, unescaped,
/// joined with `,` and put in anchor form (`1[1],2[3]` becomes `1.1+2.3`).
pub open spec fn heading_anchor(heading: Seq<char>) -> Seq<char> {
    anchor_chars(join(link_labels(heading, hits(Pat::LinkAnchor, heading)), ","@))
}

fn heading_anchor_exec(s: &[char]) -> (r: Vec<char>)
    ensures
        r@ == heading_anchor(s@),
{
    let hs = hits_exec(&Pat::LinkAnchor, s);
    let mut out: Vec<Vec<char>> = Vec::new();
    let mut i: usize = 0;
    while i < hs.len()
        invariant
            i <= hs.len(),
            svs(hs@) == hits(Pat::LinkAnchor, s@),
            spans_within(hs@, s.len() as int),
            views(out@) == link_labels(s@, svs(hs@).take(i as int)),
        decreases hs.len() - i,
    {
        let h = hs[i];
        proof {
            assert(svs(hs@).take(i + 1).drop_last() =~= svs(hs@).take(i as int));
            assert(svs(hs@).take(i + 1).last() == crate::markup::sv(h));
        }
        let u = unescape_chars(&slice_chars(s, h.1, h.2));
        let ghost before = out@;
        out.push(u);
        assert(views(out@) =~= views(before).push(u@));
        i += 1;
    }
    assert(svs(hs@).take(hs.len() as int) =~= svs(hs@));
    let comma = chars_of(",");
    anchor_chars_exec(&join_exec(&out, &comma))
}

// ---------------------------------------------------------------------------
// Works
// ---------------------------------------------------------------------------

/// A work heading reference `### [doc](/path/#anchor)` starting at `p`: the bounds of
/// the document name and of the anchor. The path runs up to the last `/#` before the
/// closing parenthesis that leaves a non-empty anchor.
pub open spec fn work_ref_at(s: Seq<char>, p: int) -> Option<(int, int, int, int)> {
    if !matches_at(s, "### ["@, p) {
        None
    } else {
        let a = p + 5;
        match find_char(s, ']', a) {
            Some(q) => if q > a && matches_at(s, "](/"@, q) {
                match find_char(s, ')', q + 3) {
                    Some(k) => match last_match(s, "/#"@, q + 4, k - 1) {
                        Some(j) => Some((a, q, j + 2, k)),
                        None => None,
                    },
                    None => None,
                }
            } else {
                None
            },
            None => None,
        }
    }
}

/// The first work heading reference at or after `p`.
pub open spec fn first_work_ref(s: Seq<char>, p: int) -> Option<(int, int, int, int)>
    decreases s.len() - p,
{
    if p < 0 || p >= s.len() {
        None
    } else {
        match work_ref_at(s, p) {
            Some(r) => Some(r),
            None => first_work_ref(s, p + 1),
        }
    }
}

/// The document name and anchor of each line that holds a work heading reference.
pub open spec fn work_refs(ls: Seq<Seq<char>>) -> Seq<(Seq<char>, Seq<char>)>
    decreases ls.len(),
{
    if ls.len() == 0 {
        Seq::empty()
    } else {
        let prev = work_refs(ls.drop_last());
        let l = ls.last();
        match first_work_ref(l, 0) {
            Some((a, q, b, k)) => prev.push((l.subrange(a, q), l.subrange(b, k))),
            None => prev,
        }
    }
}

fn work_ref_at_exec(s: &[char], p: usize) -> (r: Option<(usize, usize, usize, usize)>)
    ensures
        r matches Some((a, q, b, k)) ==> work_ref_at(s@, p as int) == Some(
            (a as int, q as int, b as int, k as int),
        ) && a <= q <= s.len() && b <= k <= s.len(),
        r is None ==> work_ref_at(s@, p as int) is None,
{
    proof {
        reveal_strlit("### [");
        reveal_strlit("](/");
        reveal_strlit("/#");
    }
    let open = chars_of("### [");
    if !matches_at_exec(s, &open, p) {
        return None;
    }
    assert(open@.len() == 5);
    assert(p + 5 <= s.len());
    let a = p + 5;
    proof {
        crate::text::lemma_find_char(s@, ']', a as int);
    }
    match find_char_exec(s, ']', a) {
        Some(q) => {
            let mid = chars_of("](/");
            if q > a && matches_at_exec(s, &mid, q) {
                assert(mid@.len() == 3);
                proof {
                    crate::text::lemma_find_char(s@, ')', q + 3);
                }
                match find_char_exec(s, ')', q + 3) {
                    Some(k) => {
                        let sep = chars_of("/#");
                        if k < 1 {
                            assert(last_match(s@, "/#"@, q + 4, k - 1) is None);
                            return None;
                        }
                        match last_match_exec(s, &sep, q + 4, k - 1) {
                            Some(j) => Some((a, q, j + 2, k)),
                            None => None,
                        }
                    },
                    None => None,
                }
            } else {
                None
            }
        },
        None => None,
    }
}

/// Reads a work: for each line holding `### [doc](/path/#anchor)`, the remark's source
/// document and anchor.
pub fn parse_work(filename: &str, content: &str) -> (w: Work)
    ensures
        w.filename@ == filename@,
        work_view(w) == work_refs(lines(content@)),
{
    let ls = lines_exec(&chars_of(content));
    let mut remarks: Vec<WorkRemark> = Vec::new();
    let mut i: usize = 0;
    while i < ls.len()
        invariant
            i <= ls.len(),
            remarks@.map_values(|r: WorkRemark| (r.source_doc@, r.source_anchor@)) == work_refs(
                views(ls@).take(i as int),
            ),
        decreases ls.len() - i,
    {
        let l = &ls[i];
        assert(views(ls@).take(i + 1).drop_last() =~= views(ls@).take(i as int));
        assert(views(ls@)[i as int] == l@);
        let mut p: usize = 0;
        let mut found: Option<(usize, usize, usize, usize)> = None;
        while p < l.len()
            invariant_except_break
                found is None,
            invariant
                p <= l.len(),
                first_work_ref(l@, 0) == first_work_ref(l@, p as int),
            ensures
                found matches Some((a, q, b, k)) ==> first_work_ref(l@, 0) == Some(
                    (a as int, q as int, b as int, k as int),
                ) && a <= q <= l.len() && b <= k <= l.len(),
                found is None ==> first_work_ref(l@, 0) is None,
            decreases l.len() - p,
        {
            match work_ref_at_exec(l, p) {
                Some(r) => {
                    found = Some(r);
                    break;
                },
                None => {
                    p += 1;
                },
            }
        }
        match found {
            Some((a, q, b, k)) => {
                let wr = WorkRemark {
                    source_doc: string_of(&slice_chars(l, a, q)),
                    source_anchor: string_of(&slice_chars(l, b, k)),
                };
                let ghost before = remarks@;
                remarks.push(wr);
                assert(remarks@.map_values(|r: WorkRemark| (r.source_doc@, r.source_anchor@))
                    =~= before.map_values(|r: WorkRemark| (r.source_doc@, r.source_anchor@)).push(
                    (wr.source_doc@, wr.source_anchor@),
                ));
            },
            None => {},
        }
        i += 1;
    }
    assert(views(ls@).take(ls.len() as int) =~= views(ls@));
    Work { filename: string_of(&chars_of(filename)), remarks }
}

// ---------------------------------------------------------------------------
// Source documents
// ---------------------------------------------------------------------------

/// Whether `c` is an ASCII digit.
pub open spec fn ascii_digit(c: char) -> bool {
    '0' <= c && c <= '9'
}

/// The value of an ASCII digit.
pub open spec fn digit_value(c: char) -> int {
    c as int - '0' as int
}

/// A date `DD.MM.YYYY` (the whole line, trimmed) as a rough day count
/// `year * 365 + month * 30 + day`.
pub open spec fn date_value(line: Seq<char>) -> Option<int> {
    let t = trim(line);
    if t.len() == 10 && ascii_digit(t[0]) && ascii_digit(t[1]) && t[2] == '.' && ascii_digit(t[3])
        && ascii_digit(t[4]) && t[5] == '.' && ascii_digit(t[6]) && ascii_digit(t[7])
        && ascii_digit(t[8]) && ascii_digit(t[9]) {
        let d = digit_value(t[0]) * 10 + digit_value(t[1]);
        let m = digit_value(t[3]) * 10 + digit_value(t[4]);
        let y = digit_value(t[6]) * 1000 + digit_value(t[7]) * 100 + digit_value(t[8]) * 10
            + digit_value(t[9]);
        Some(y * 365 + m * 30 + d)
    } else {
        None
    }
}

fn digit_exec(c: char) -> (v: i64)
    requires
        ascii_digit(c),
    ensures
        v == digit_value(c),
        0 <= v <= 9,
{
    (c as u32 - '0' as u32) as i64
}

/// Parses a `DD.MM.YYYY` date into a rough day count.
pub fn parse_date(s: &str) -> (r: Option<i64>)
    ensures
        r matches Some(v) ==> date_value(s@) == Some(v as int) && 0 <= v < 0x1000_0000,
        r is None ==> date_value(s@) is None,
{
    let t = trim_exec(&chars_of(s));
    if t.len() != 10 {
        return None;
    }
    let ok = '0' <= t[0] && t[0] <= '9' && '0' <= t[1] && t[1] <= '9' && t[2] == '.' && '0' <= t[3]
        && t[3] <= '9' && '0' <= t[4] && t[4] <= '9' && t[5] == '.' && '0' <= t[6] && t[6] <= '9'
        && '0' <= t[7] && t[7] <= '9' && '0' <= t[8] && t[8] <= '9' && '0' <= t[9] && t[9] <= '9';
    if !ok {
        return None;
    }
    let d = digit_exec(t[0]) * 10 + digit_exec(t[1]);
    let m = digit_exec(t[3]) * 10 + digit_exec(t[4]);
    let y = digit_exec(t[6]) * 1000 + digit_exec(t[7]) * 100 + digit_exec(t[8]) * 10 + digit_exec(
        t[9],
    );
    Some(y * 365 + m * 30 + d)
}

/// The break before a new remark: a separator in the previous remark, else a gap of
/// more than 30 days between the previous two dates, else none.
pub open spec fn break_kind(sep: bool, prev: Option<int>, cur: Option<int>) -> RemarkBreak {
    if sep {
        RemarkBreak::Separator
    } else {
        match (prev, cur) {
            (Some(pd), Some(cd)) => if cd - pd > 30 || pd - cd > 30 {
                RemarkBreak::DateGap
            } else {
                RemarkBreak::NoBreak
            },
            _ => RemarkBreak::NoBreak,
        }
    }
}

/// The state after reading some lines of a source document: anchors, breaks, whether
/// the current remark holds a separator, its date, the previous remark's date, and
/// whether a remark has begun.
pub type SrcState = (Seq<Seq<char>>, Seq<RemarkBreak>, bool, Option<int>, Option<int>, bool);

/// Reads one line of a source document.
pub open spec fn src_step(st: SrcState, line: Seq<char>) -> SrcState {
    let (anchors, breaks, sep, cur, prev, inr) = st;
    if starts_with(line, "### "@) {
        (
            anchors.push(heading_anchor(line)),
            if inr {
                breaks.push(break_kind(sep, prev, cur))
            } else {
                breaks
            },
            false,
            None,
            if inr {
                cur
            } else {
                prev
            },
            true,
        )
    } else if inr {
        (
            anchors,
            breaks,
            sep || trim(line) == "---"@,
            if cur is None {
                date_value(line)
            } else {
                cur
            },
            prev,
            inr,
        )
    } else {
        st
    }
}

/// The state after reading the lines `ls`.
pub open spec fn src_fold(ls: Seq<Seq<char>>) -> SrcState
    decreases ls.len(),
{
    if ls.len() == 0 {
        (Seq::empty(), Seq::empty(), false, None, None, false)
    } else {
        src_step(src_fold(ls.drop_last()), ls.last())
    }
}

/// Reads a source document: the anchor of each remark heading (`### …`) and the break
/// before each remark after the first.
pub fn parse_source_doc(content: &str) -> (d: SourceDoc)
    ensures
        string_views(d.anchors@) == src_fold(lines(content@)).0,
        d.breaks@ == src_fold(lines(content@)).1,
{
    let ls = lines_exec(&chars_of(content));
    let mut anchors: Vec<String> = Vec::new();
    let mut breaks: Vec<RemarkBreak> = Vec::new();
    let mut sep = false;
    let mut cur: Option<i64> = None;
    let mut prev: Option<i64> = None;
    let mut inr = false;
    let mut i: usize = 0;
    while i < ls.len()
        invariant
            i <= ls.len(),
            ({
                let st = src_fold(views(ls@).take(i as int));
                &&& string_views(anchors@) == st.0
                &&& breaks@ == st.1
                &&& sep == st.2
                &&& (match cur {
                    Some(v) => st.3 == Some(v as int) && 0 <= v < 0x1000_0000,
                    None => st.3 is None,
                })
                &&& (match prev {
                    Some(v) => st.4 == Some(v as int) && 0 <= v < 0x1000_0000,
                    None => st.4 is None,
                })
                &&& inr == st.5
            }),
        decreases ls.len() - i,
    {
        let l = &ls[i];
        assert(views(ls@).take(i + 1).drop_last() =~= views(ls@).take(i as int));
        assert(views(ls@)[i as int] == l@);
        if starts_with_exec(l, "### ") {
            if inr {
                let brk = if sep {
                    RemarkBreak::Separator
                } else {
                    match (prev, cur) {
                        (Some(pd), Some(cd)) => if cd - pd > 30 || pd - cd > 30 {
                            RemarkBreak::DateGap
                        } else {
                            RemarkBreak::NoBreak
                        },
                        _ => RemarkBreak::NoBreak,
                    }
                };
                breaks.push(brk);
                prev = cur;
            }
            let a = string_of(&heading_anchor_exec(l));
            let ghost before = anchors@;
            anchors.push(a);
            assert(string_views(anchors@) =~= string_views(before).push(a@));
            sep = false;
            cur = None;
            inr = true;
        } else if inr {
            let t = trim_exec(l);
            let dash = chars_of("---");
            if chars_eq(&t, &dash) {
                sep = true;
            }
            if cur.is_none() {
                cur = parse_date_chars(l);
            }
        }
        i += 1;
    }
    assert(views(ls@).take(ls.len() as int) =~= views(ls@));
    SourceDoc { anchors, breaks }
}

fn parse_date_chars(l: &[char]) -> (r: Option<i64>)
    ensures
        r matches Some(v) ==> date_value(l@) == Some(v as int) && 0 <= v < 0x1000_0000,
        r is None ==> date_value(l@) is None,
{
    let s = string_of(l);
    parse_date(s.as_str())
}

// ---------------------------------------------------------------------------
// Correspondences
// ---------------------------------------------------------------------------

/// The last index at which `anchors` holds `a`.
pub open spec fn last_index(anchors: Seq<Seq<char>>, a: Seq<char>) -> Option<int>
    decreases anchors.len(),
{
    if anchors.len() == 0 {
        None
    } else if anchors.last() == a {
        Some(anchors.len() - 1)
    } else {
        last_index(anchors.drop_last(), a)
    }
}

/// The anchors of the last source document named `name` among `docs`.
pub open spec fn doc_anchors(docs: Seq<(Seq<char>, Seq<Seq<char>>)>, name: Seq<char>) -> Option<
    Seq<Seq<char>>,
>
    decreases docs.len(),
{
    if docs.len() == 0 {
        None
    } else if docs.last().0 == name {
        Some(docs.last().1)
    } else {
        doc_anchors(docs.drop_last(), name)
    }
}

/// The names and anchors of source documents.
pub open spec fn docs_view(docs: Seq<(String, SourceDoc)>) -> Seq<(Seq<char>, Seq<Seq<char>>)> {
    docs.map_values(|d: (String, SourceDoc)| (d.0@, string_views(d.1.anchors@)))
}

/// A correspondence as `(work index, document name, source index)`.
pub open spec fn corr_view(c: Correspondence) -> (int, Seq<char>, int) {
    (c.work_idx as int, c.doc_name@, c.source_idx as int)
}

/// The correspondences of the first `n` work remarks.
pub open spec fn corr_fold(
    remarks: Seq<(Seq<char>, Seq<char>)>,
    docs: Seq<(Seq<char>, Seq<Seq<char>>)>,
    n: int,
) -> Seq<(int, Seq<char>, int)>
    decreases n,
{
    if n <= 0 || n > remarks.len() {
        Seq::empty()
    } else {
        let prev = corr_fold(remarks, docs, n - 1);
        let (doc, anchor) = remarks[n - 1];
        match doc_anchors(docs, doc) {
            Some(anchors) => match last_index(anchors, anchor) {
                Some(i) => prev.push((n - 1, doc, i)),
                None => prev,
            },
            None => prev,
        }
    }
}

fn last_index_exec(anchors: &Vec<String>, a: &[char]) -> (r: Option<usize>)
    ensures
        r matches Some(i) ==> last_index(string_views(anchors@), a@) == Some(i as int) && i
            < anchors.len(),
        r is None ==> last_index(string_views(anchors@), a@) is None,
{
    let mut j: usize = anchors.len();
    assert(string_views(anchors@).take(j as int) =~= string_views(anchors@));
    while j > 0
        invariant
            j <= anchors.len(),
            last_index(string_views(anchors@), a@) == last_index(
                string_views(anchors@).take(j as int),
                a@,
            ),
        decreases j,
    {
        let ghost t = string_views(anchors@).take(j as int);
        assert(t.drop_last() =~= string_views(anchors@).take(j - 1));
        if chars_eq(&chars_of(anchors[j - 1].as_str()), a) {
            return Some(j - 1);
        }
        j -= 1;
    }
    None
}

fn doc_index_exec(docs: &[(String, SourceDoc)], name: &[char]) -> (r: Option<usize>)
    ensures
        r matches Some(i) ==> i < docs.len() && doc_anchors(docs_view(docs@), name@) == Some(
            string_views(docs@[i as int].1.anchors@),
        ),
        r is None ==> doc_anchors(docs_view(docs@), name@) is None,
{
    let mut j: usize = docs.len();
    assert(docs_view(docs@).take(j as int) =~= docs_view(docs@));
    while j > 0
        invariant
            j <= docs.len(),
            doc_anchors(docs_view(docs@), name@) == doc_anchors(docs_view(docs@).take(j as int), name@),
        decreases j,
    {
        let ghost t = docs_view(docs@).take(j as int);
        assert(t.drop_last() =~= docs_view(docs@).take(j - 1));
        if chars_eq(&chars_of(docs[j - 1].0.as_str()), name) {
            return Some(j - 1);
        }
        j -= 1;
    }
    None
}

/// For each work remark, its index in the source document it names, where that
/// document has a remark with its anchor (the last one, if several do).
pub fn build_correspondence(work: &Work, source_docs: &[(String, SourceDoc)]) -> (r: Vec<
    Correspondence,
>)
    ensures
        r@.map_values(|c: Correspondence| corr_view(c)) == corr_fold(
            work_view(*work),
            docs_view(source_docs@),
            work.remarks.len() as int,
        ),
{
    let mut out: Vec<Correspondence> = Vec::new();
    let mut i: usize = 0;
    while i < work.remarks.len()
        invariant
            i <= work.remarks.len(),
            out@.map_values(|c: Correspondence| corr_view(c)) == corr_fold(
                work_view(*work),
                docs_view(source_docs@),
                i as int,
            ),
        decreases work.remarks.len() - i,
    {
        let rm = &work.remarks[i];
        assert(work_view(*work)[i as int] == (rm.source_doc@, rm.source_anchor@));
        let name = chars_of(rm.source_doc.as_str());
        match doc_index_exec(source_docs, &name) {
            Some(d) => {
                let anchor = chars_of(rm.source_anchor.as_str());
                match last_index_exec(&source_docs[d].1.anchors, &anchor) {
                    Some(k) => {
                        let c = Correspondence {
                            work_idx: i,
                            doc_name: string_of(&name),
                            source_idx: k,
                        };
                        let ghost before = out@;
                        out.push(c);
                        assert(out@.map_values(|c: Correspondence| corr_view(c)) =~= before.map_values(
                            |c: Correspondence| corr_view(c),
                        ).push(corr_view(c)));
                    },
                    None => {},
                }
            },
            None => {},
        }
        i += 1;
    }
    out
}

/// The source documents named by a work's remarks, each once, in order of first
/// appearance.
pub open spec fn doc_order_fold(remarks: Seq<(Seq<char>, Seq<char>)>) -> Seq<Seq<char>>
    decreases remarks.len(),
{
    if remarks.len() == 0 {
        Seq::empty()
    } else {
        let prev = doc_order_fold(remarks.drop_last());
        let d = remarks.last().0;
        if prev.contains(d) {
            prev
        } else {
            prev.push(d)
        }
    }
}

/// The document order of a work names every source document of its remarks exactly
/// once, and nothing else, and lists two documents in the order in which each first
/// appears among the remarks.
pub proof fn lemma_doc_order(remarks: Seq<(Seq<char>, Seq<char>)>)
    ensures
        forall|i: int, j: int|
            0 <= i < j < doc_order_fold(remarks).len() ==> #[trigger] doc_order_fold(remarks)[i]
                != #[trigger] doc_order_fold(remarks)[j],
        forall|k: int| 0 <= k < remarks.len() ==> doc_order_fold(remarks).contains(#[trigger] remarks[k].0),
        forall|i: int|
            0 <= i < doc_order_fold(remarks).len() ==> exists|k: int|
                0 <= k < remarks.len() && #[trigger] remarks[k].0 == #[trigger] doc_order_fold(remarks)[i],
        forall|i: int, j: int|
            #![trigger doc_order_fold(remarks)[i], doc_order_fold(remarks)[j]]
            0 <= i < j < doc_order_fold(remarks).len() ==> exists|k: int|
                #![trigger remarks[k]]
                0 <= k < remarks.len() && remarks[k].0 == doc_order_fold(remarks)[i] && forall|m: int|
                    #![trigger remarks[m]]
                    0 <= m <= k ==> remarks[m].0 != doc_order_fold(remarks)[j],
    decreases remarks.len(),
{
    let o = doc_order_fold(remarks);
    if remarks.len() > 0 {
        let rs = remarks.drop_last();
        let p = doc_order_fold(rs);
        let n = remarks.len() - 1;
        let d = remarks.last().0;
        lemma_doc_order(rs);
        assert forall|k: int| 0 <= k < n implies #[trigger] remarks[k] == rs[k] by {}
        if p.contains(d) {
            assert(o == p);
            assert forall|k: int| 0 <= k < remarks.len() implies o.contains(#[trigger] remarks[k].0) by {
                if k < n {
                    assert(rs[k] == remarks[k]);
                    assert(p.contains(rs[k].0));
                }
            }
            assert forall|i: int| 0 <= i < o.len() implies exists|k: int|
                0 <= k < remarks.len() && #[trigger] remarks[k].0 == #[trigger] o[i] by {
                let k = choose|k: int| 0 <= k < rs.len() && #[trigger] rs[k].0 == #[trigger] p[i];
                assert(remarks[k] == rs[k]);
            }
            assert forall|i: int, j: int|
                #![trigger o[i], o[j]]
                0 <= i < j < o.len() implies exists|k: int|
                #![trigger remarks[k]]
                0 <= k < remarks.len() && remarks[k].0 == o[i] && forall|m: int|
                    #![trigger remarks[m]]
                    0 <= m <= k ==> remarks[m].0 != o[j] by {
                let k = choose|k: int|
                    #![trigger rs[k]]
                    0 <= k < rs.len() && rs[k].0 == p[i] && forall|m: int|
                        #![trigger rs[m]]
                        0 <= m <= k ==> rs[m].0 != p[j];
                assert(remarks[k] == rs[k]);
                assert forall|m: int| 0 <= m <= k implies #[trigger] remarks[m].0 != o[j] by {
                    assert(remarks[m] == rs[m]);
                    assert(rs[m].0 != p[j]);
                }
            }
        } else {
            assert(o == p.push(d));
            assert forall|i: int, j: int| 0 <= i < j < o.len() implies #[trigger] o[i] != #[trigger] o[j] by {
                if j < p.len() {
                    assert(p[i] != p[j]);
                } else {
                    assert(p.contains(p[i]));
                }
            }
            assert forall|k: int| 0 <= k < remarks.len() implies o.contains(#[trigger] remarks[k].0) by {
                if k < n {
                    assert(rs[k] == remarks[k]);
                    assert(p.contains(rs[k].0));
                    let x = choose|x: int| 0 <= x < p.len() && p[x] == rs[k].0;
                    assert(o[x] == p[x]);
                } else {
                    assert(o[p.len() as int] == d);
                }
            }
            assert forall|i: int| 0 <= i < o.len() implies exists|k: int|
                0 <= k < remarks.len() && #[trigger] remarks[k].0 == #[trigger] o[i] by {
                if i < p.len() {
                    let k = choose|k: int| 0 <= k < rs.len() && #[trigger] rs[k].0 == #[trigger] p[i];
                    assert(remarks[k] == rs[k]);
                } else {
                    assert(remarks[n].0 == o[i]);
                }
            }
            assert forall|i: int, j: int|
                #![trigger o[i], o[j]]
                0 <= i < j < o.len() implies exists|k: int|
                #![trigger remarks[k]]
                0 <= k < remarks.len() && remarks[k].0 == o[i] && forall|m: int|
                    #![trigger remarks[m]]
                    0 <= m <= k ==> remarks[m].0 != o[j] by {
                if j < p.len() {
                    let k = choose|k: int|
                        #![trigger rs[k]]
                        0 <= k < rs.len() && rs[k].0 == p[i] && forall|m: int|
                            #![trigger rs[m]]
                            0 <= m <= k ==> rs[m].0 != p[j];
                    assert(remarks[k] == rs[k]);
                    assert forall|m: int| 0 <= m <= k implies #[trigger] remarks[m].0 != o[j] by {
                        assert(remarks[m] == rs[m]);
                        assert(rs[m].0 != p[j]);
                    }
                } else {
                    let k = choose|k: int| 0 <= k < rs.len() && #[trigger] rs[k].0 == #[trigger] p[i];
                    assert(remarks[k] == rs[k]);
                    assert forall|m: int| 0 <= m <= k implies #[trigger] remarks[m].0 != o[j] by {
                        assert(remarks[m] == rs[m]);
                        assert(p.contains(rs[m].0));
                    }
                }
            }
        }
    }
}

/// Get the ordered list of unique source documents referenced by a work, in the order
/// they first appear.
pub fn source_doc_order(work: &Work) -> (r: Vec<String>)
    ensures
        string_views(r@) == doc_order_fold(work_view(*work)),
{
    let mut order: Vec<String> = Vec::new();
    let mut i: usize = 0;
    while i < work.remarks.len()
        invariant
            i <= work.remarks.len(),
            string_views(order@) == doc_order_fold(work_view(*work).take(i as int)),
        decreases work.remarks.len() - i,
    {
        assert(work_view(*work).take(i + 1).drop_last() =~= work_view(*work).take(i as int));
        let d = chars_of(work.remarks[i].source_doc.as_str());
        if !crate::translate::reuse::strings_contain(&order, &d) {
            let s = string_of(&d);
            let ghost before = order@;
            order.push(s);
            assert(string_views(order@) =~= string_views(before).push(s@));
        }
        i += 1;
    }
    assert(work_view(*work).take(work.remarks.len() as int) =~= work_view(*work));
    order
}

} // verus!
