//! The integer side of a diagram: page labels, which remarks are linked, and the runs
//! of consecutive correspondences that are drawn as one band.
use vstd::prelude::*;
use crate::text::{
    before_first, before_first_exec, chars_of, chars_eq, last_match, last_match_exec, replace,
    replace_exec, slice_chars, string_of,
};
use crate::visualize::display::DisplayEntry;
use crate::visualize::parse::{corr_view, Correspondence, RemarkBreak};

verus! {

/// The page identifier of an anchor: its first `+`-separated segment up to the last
/// `.` (`100r.2` gives `100r`, `80.2+81.1` gives `80`, `1` gives `1`).
pub open spec fn spec_page_from_anchor(anchor: Seq<char>) -> Seq<char> {
    let seg = before_first(anchor, "+"@);
    match last_match(seg, "."@, 0, seg.len() as int) {
        Some(j) => seg.subrange(0, j),
        None => seg,
    }
}

/// Extract the page identifier from an anchor string.
pub fn page_from_anchor(anchor: &str) -> (r: String)
    ensures
        r@ == spec_page_from_anchor(anchor@),
{
    let seg = before_first_exec(&chars_of(anchor), "+");
    let dot = chars_of(".");
    match last_match_exec(&seg, &dot, 0, seg.len()) {
        Some(j) => string_of(&slice_chars(&seg, 0, j)),
        None => string_of(&seg),
    }
}

/// Text safe to put into SVG: `&`, `<`, `>` and `"` escaped.
pub open spec fn spec_xml_escape(s: Seq<char>) -> Seq<char> {
    replace(replace(replace(replace(s, "&"@, "&amp;"@), "<"@, "&lt;"@), ">"@, "&gt;"@), "\""@, "&quot;"@)
}

/// Escape text for SVG.
pub fn xml_escape(s: &str) -> (r: String)
    ensures
        r@ == spec_xml_escape(s@),
{
    proof {
        reveal_strlit("&");
        reveal_strlit("<");
        reveal_strlit(">");
        reveal_strlit("\"");
    }
    let a = replace_exec(&chars_of(s), "&", "&amp;");
    let b = replace_exec(&a, "<", "&lt;");
    let c = replace_exec(&b, ">", "&gt;");
    string_of(&replace_exec(&c, "\"", "&quot;"))
}

/// The source indices of the correspondences into the document `doc`, in order.
pub open spec fn corr_indices(doc: Seq<char>, cs: Seq<(int, Seq<char>, int)>) -> Seq<int>
    decreases cs.len(),
{
    if cs.len() == 0 {
        Seq::empty()
    } else {
        let prev = corr_indices(doc, cs.drop_last());
        if cs.last().1 == doc {
            prev.push(cs.last().2)
        } else {
            prev
        }
    }
}

/// The views of correspondences.
pub open spec fn corr_views(cs: Seq<Correspondence>) -> Seq<(int, Seq<char>, int)> {
    cs.map_values(|c: Correspondence| corr_view(c))
}

/// Which source remark indices of `doc_name` have correspondences.
pub fn correspondence_indices(doc_name: &str, correspondences: &[Correspondence]) -> (r: Vec<usize>)
    ensures
        r@.map_values(|i: usize| i as int) == corr_indices(doc_name@, corr_views(correspondences@)),
{
    let d = chars_of(doc_name);
    let mut out: Vec<usize> = Vec::new();
    let mut i: usize = 0;
    while i < correspondences.len()
        invariant
            i <= correspondences.len(),
            d@ == doc_name@,
            out@.map_values(|i: usize| i as int) == corr_indices(
                doc_name@,
                corr_views(correspondences@).take(i as int),
            ),
        decreases correspondences.len() - i,
    {
        assert(corr_views(correspondences@).take(i + 1).drop_last() =~= corr_views(
            correspondences@,
        ).take(i as int));
        let c = &correspondences[i];
        if chars_eq(&chars_of(c.doc_name.as_str()), &d) {
            let ghost before = out@;
            out.push(c.source_idx);
            assert(out@.map_values(|i: usize| i as int) =~= before.map_values(|i: usize| i as int).push(
                c.source_idx as int,
            ));
        }
        i += 1;
    }
    assert(corr_views(correspondences@).take(correspondences.len() as int) =~= corr_views(
        correspondences@,
    ));
    out
}

/// The integer layout of a source document column: its display entries and the
/// breaks between its remarks.
pub struct DocLayout {
    pub doc_name: String,
    pub entries: Vec<DisplayEntry>,
    pub breaks: Vec<RemarkBreak>,
}

/// A run of consecutive work remarks that correspond to consecutive source remarks.
pub struct CorrespondenceRun {
    pub doc_name: String,
    pub work_start: usize,
    pub work_end: usize,
    pub source_start: usize,
    pub source_end: usize,
}

/// A layout as `(name, entries, breaks)`.
pub type LayoutView = (Seq<char>, Seq<DisplayEntry>, Seq<RemarkBreak>);

/// A run as `(document, work start, work end, source start, source end)`.
pub type RunView = (Seq<char>, int, int, int, int);

/// The view of a layout.
pub open spec fn layout_view(l: DocLayout) -> LayoutView {
    (l.doc_name@, l.entries@, l.breaks@)
}

/// The view of a run.
pub open spec fn run_view(r: CorrespondenceRun) -> RunView {
    (r.doc_name@, r.work_start as int, r.work_end as int, r.source_start as int, r.source_end as int)
}

/// The first layout of the document `name`.
pub open spec fn find_layout(ls: Seq<LayoutView>, name: Seq<char>) -> Option<LayoutView>
    decreases ls.len(),
{
    if ls.len() == 0 {
        None
    } else if ls[0].0 == name {
        Some(ls[0])
    } else {
        find_layout(ls.drop_first(), name)
    }
}

/// Whether remark `idx` is a separator or a date gap away from the remark before it.
pub open spec fn break_before(breaks: Seq<RemarkBreak>, idx: int) -> bool {
    1 <= idx <= breaks.len() && breaks[idx - 1] != RemarkBreak::NoBreak
}

/// Whether a separator or a date gap precedes remark `idx` of a document.
pub fn has_break_before(breaks: &[RemarkBreak], idx: usize) -> (r: bool)
    ensures
        r == break_before(breaks@, idx as int),
{
    idx >= 1 && idx - 1 < breaks.len() && breaks[idx - 1] != RemarkBreak::NoBreak
}

/// `runs` with the current run, if any, closed.
pub open spec fn close_run(runs: Seq<RunView>, cur: Option<RunView>) -> Seq<RunView> {
    match cur {
        Some(r) => runs.push(r),
        None => runs,
    }
}

/// The finished runs and the current run after the first `n` correspondences. A
/// correspondence into a document without layout, or to a hidden remark, ends the
/// current run; one that follows the current run in the work and in the same document
/// without a break extends it; any other starts a new run.
pub open spec fn runs_fold(cs: Seq<(int, Seq<char>, int)>, ls: Seq<LayoutView>, n: int) -> (Seq<
    RunView,
>, Option<RunView>)
    decreases n,
{
    if n <= 0 || n > cs.len() {
        (Seq::empty(), None)
    } else {
        let (runs, cur) = runs_fold(cs, ls, n - 1);
        let (w, doc, src) = cs[n - 1];
        match find_layout(ls, doc) {
            None => (close_run(runs, cur), None),
            Some(l) => if !l.1.contains(DisplayEntry::Show(src as usize)) {
                (close_run(runs, cur), None)
            } else {
                let ext = match cur {
                    Some(c) => c.0 == doc && w == c.2 + 1 && src == c.4 + 1 && !break_before(
                        l.2,
                        src,
                    ),
                    None => false,
                };
                if ext {
                    (runs, Some((cur.unwrap().0, cur.unwrap().1, w, cur.unwrap().3, src)))
                } else {
                    (close_run(runs, cur), Some((doc, w, w, src, src)))
                }
            },
        }
    }
}

/// The runs of consecutive correspondences.
pub open spec fn spec_detect_runs(cs: Seq<(int, Seq<char>, int)>, ls: Seq<LayoutView>) -> Seq<
    RunView,
> {
    let (runs, cur) = runs_fold(cs, ls, cs.len() as int);
    close_run(runs, cur)
}

fn find_layout_exec(ls: &[DocLayout], name: &[char]) -> (r: Option<usize>)
    ensures
        r matches Some(i) ==> i < ls.len() && find_layout(
            ls@.map_values(|l: DocLayout| layout_view(l)),
            name@,
        ) == Some(layout_view(ls@[i as int])),
        r is None ==> find_layout(ls@.map_values(|l: DocLayout| layout_view(l)), name@) is None,
{
    let ghost v = ls@.map_values(|l: DocLayout| layout_view(l));
    let mut i: usize = 0;
    assert(v.skip(0) =~= v);
    while i < ls.len()
        invariant
            i <= ls.len(),
            v == ls@.map_values(|l: DocLayout| layout_view(l)),
            find_layout(v, name@) == find_layout(v.skip(i as int), name@),
        decreases ls.len() - i,
    {
        let ghost rest = v.skip(i as int);
        assert(rest[0] == layout_view(ls@[i as int]));
        assert(rest.drop_first() =~= v.skip(i + 1));
        if chars_eq(&chars_of(ls[i].doc_name.as_str()), name) {
            return Some(i);
        }
        i += 1;
    }
    None
}

fn shows_index(entries: &Vec<DisplayEntry>, idx: usize) -> (r: bool)
    ensures
        r == entries@.contains(DisplayEntry::Show(idx)),
{
    let mut i: usize = 0;
    while i < entries.len()
        invariant
            i <= entries.len(),
            forall|k: int| 0 <= k < i ==> entries@[k] != DisplayEntry::Show(idx),
        decreases entries.len() - i,
    {
        if entries[i] == DisplayEntry::Show(idx) {
            assert(entries@[i as int] == DisplayEntry::Show(idx));
            return true;
        }
        i += 1;
    }
    false
}

fn copy_run(r: &CorrespondenceRun) -> (c: CorrespondenceRun)
    ensures
        run_view(c) == run_view(*r),
{
    CorrespondenceRun {
        doc_name: string_of(&chars_of(r.doc_name.as_str())),
        work_start: r.work_start,
        work_end: r.work_end,
        source_start: r.source_start,
        source_end: r.source_end,
    }
}

/// Groups the correspondences into runs that follow each other both in the work and in
/// one source document, with no break between them in the document.
pub fn detect_runs(correspondences: &[Correspondence], layouts: &[DocLayout]) -> (r: Vec<
    CorrespondenceRun,
>)
    ensures
        r@.map_values(|x: CorrespondenceRun| run_view(x)) == spec_detect_runs(
            corr_views(correspondences@),
            layouts@.map_values(|l: DocLayout| layout_view(l)),
        ),
{
    let ghost cs = corr_views(correspondences@);
    let ghost lv = layouts@.map_values(|l: DocLayout| layout_view(l));
    let mut runs: Vec<CorrespondenceRun> = Vec::new();
    let mut current: Option<CorrespondenceRun> = None;
    let mut i: usize = 0;
    while i < correspondences.len()
        invariant
            i <= correspondences.len(),
            cs == corr_views(correspondences@),
            lv == layouts@.map_values(|l: DocLayout| layout_view(l)),
            runs@.map_values(|x: CorrespondenceRun| run_view(x)) == runs_fold(cs, lv, i as int).0,
            (match current {
                Some(c) => runs_fold(cs, lv, i as int).1 == Some(run_view(c)),
                None => runs_fold(cs, lv, i as int).1 is None,
            }),
        decreases correspondences.len() - i,
    {
        let c = &correspondences[i];
        assert(cs[i as int] == corr_view(*c));
        let name = chars_of(c.doc_name.as_str());
        let found = find_layout_exec(layouts, &name);
        let shown = match found {
            Some(li) => shows_index(&layouts[li].entries, c.source_idx),
            None => false,
        };
        if !shown {
            match current {
                Some(cur) => {
                    let ghost before = runs@;
                    runs.push(cur);
                    assert(runs@.map_values(|x: CorrespondenceRun| run_view(x)) =~= before.map_values(
                        |x: CorrespondenceRun| run_view(x),
                    ).push(run_view(cur)));
                },
                None => {},
            }
            current = None;
        } else {
            let li = found.unwrap();
            let l = &layouts[li];
            let idx = c.source_idx;
            let has_break = has_break_before(&l.breaks, idx);
            let ext = match &current {
                Some(cur) => chars_eq(&chars_of(cur.doc_name.as_str()), &name) && c.work_idx >= 1
                    && c.work_idx - 1 == cur.work_end && idx >= 1 && idx - 1 == cur.source_end
                    && !has_break,
                None => false,
            };
            if ext {
                let cur = current.unwrap();
                current = Some(
                    CorrespondenceRun {
                        doc_name: cur.doc_name,
                        work_start: cur.work_start,
                        work_end: c.work_idx,
                        source_start: cur.source_start,
                        source_end: idx,
                    },
                );
            } else {
                match current {
                    Some(cur) => {
                        let ghost before = runs@;
                        runs.push(cur);
                        assert(runs@.map_values(|x: CorrespondenceRun| run_view(x))
                            =~= before.map_values(|x: CorrespondenceRun| run_view(x)).push(
                            run_view(cur),
                        ));
                    },
                    None => {},
                }
                current = Some(
                    CorrespondenceRun {
                        doc_name: string_of(&name),
                        work_start: c.work_idx,
                        work_end: c.work_idx,
                        source_start: idx,
                        source_end: idx,
                    },
                );
            }
        }
        i += 1;
    }
    match current {
        Some(cur) => {
            let ghost before = runs@;
            runs.push(cur);
            assert(runs@.map_values(|x: CorrespondenceRun| run_view(x)) =~= before.map_values(
                |x: CorrespondenceRun| run_view(x),
            ).push(run_view(cur)));
        },
        None => {},
    }
    runs
}


/// A run pairs as many work remarks as source remarks, in order.
pub open spec fn balanced(r: RunView) -> bool {
    r.1 <= r.2 && r.2 - r.1 == r.4 - r.3
}

proof fn lemma_runs_fold_balanced(cs: Seq<(int, Seq<char>, int)>, ls: Seq<LayoutView>, n: int)
    ensures
        forall|j: int| 0 <= j < runs_fold(cs, ls, n).0.len() ==> balanced(#[trigger] runs_fold(cs, ls, n).0[j]),
        runs_fold(cs, ls, n).1 matches Some(c) ==> balanced(c),
    decreases n,
{
    if n > 0 && n <= cs.len() {
        lemma_runs_fold_balanced(cs, ls, n - 1);
        let (runs, cur) = runs_fold(cs, ls, n - 1);
        assert forall|j: int| 0 <= j < close_run(runs, cur).len() implies balanced(#[trigger] close_run(runs, cur)[j]) by {
            if j < runs.len() {
                assert(close_run(runs, cur)[j] == runs[j]);
            }
        }
    }
}

/// Every band of a diagram joins as many consecutive work remarks as consecutive
/// source remarks.
pub proof fn lemma_runs_balanced(cs: Seq<(int, Seq<char>, int)>, ls: Seq<LayoutView>)
    ensures
        forall|j: int| 0 <= j < spec_detect_runs(cs, ls).len() ==> balanced(#[trigger] spec_detect_runs(cs, ls)[j]),
{
    lemma_runs_fold_balanced(cs, ls, cs.len() as int);
    let (runs, cur) = runs_fold(cs, ls, cs.len() as int);
    assert forall|j: int| 0 <= j < close_run(runs, cur).len() implies balanced(#[trigger] close_run(runs, cur)[j]) by {
        if j < runs.len() {
            assert(close_run(runs, cur)[j] == runs[j]);
        }
    }
}
} // verus!
