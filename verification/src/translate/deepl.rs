//! The decisions of `fix-deepl`: which remarks to send to DeepL again, whether its
//! translation is kept, and what is logged for each attempt in the tracking file.
use vstd::prelude::*;
use crate::text::{
    chars_eq, chars_of, contains, contains_exec, join, join_exec, lines, lines_exec, push_all, push_str, slice_chars,
    starts_with, starts_with_exec, string_of, views,
};
use crate::translate::common::string_views;
use crate::translate::reuse::strings_contain;
use crate::translate::session::{has_critical_issues, spec_critical};
use crate::translate::verify::{issue_views, lex_lt, lex_lt_exec, Issue, IssueView};

verus! {

// ---------------------------------------------------------------------------
// Targets
// ---------------------------------------------------------------------------

/// The remarks logged in a tracking file: the text after `## ` of each line that
/// starts with it and has more.
pub open spec fn attempted_fold(ls: Seq<Seq<char>>) -> Seq<Seq<char>>
    decreases ls.len(),
{
    if ls.len() == 0 {
        Seq::empty()
    } else {
        let rest = attempted_fold(ls.drop_last());
        let l = ls.last();
        if starts_with(l, "## "@) && l.len() > 3 {
            rest.push(l.skip(3))
        } else {
            rest
        }
    }
}

/// The remarks (`file:remark_id`) logged in the tracking file `tracking`.
pub open spec fn spec_attempted(tracking: Seq<char>) -> Seq<Seq<char>> {
    attempted_fold(lines(tracking))
}

/// The remarks logged in a tracking file.
pub fn attempted_remarks(tracking: &str) -> (r: Vec<String>)
    ensures
        string_views(r@) == spec_attempted(tracking@),
{
    let ls = lines_exec(&chars_of(tracking));
    let ghost lv = views(ls@);
    let mut out: Vec<String> = Vec::new();
    let mut i: usize = 0;
    while i < ls.len()
        invariant
            i <= ls.len(),
            lv == views(ls@),
            lv == lines(tracking@),
            string_views(out@) == attempted_fold(lv.take(i as int)),
        decreases ls.len() - i,
    {
        assert(lv.take(i + 1).drop_last() =~= lv.take(i as int));
        assert(lv.take(i + 1).last() == ls@[i as int]@);
        let l = &ls[i];
        if starts_with_exec(l, "## ") && l.len() > 3 {
            let rest = slice_chars(l, 3, l.len());
            let ghost before = string_views(out@);
            let s = string_of(&rest);
            out.push(s);
            assert(rest@ =~= l@.skip(3));
            assert(string_views(out@) =~= before.push(s@));
        }
        i += 1;
    }
    assert(lv.take(ls.len() as int) =~= lv);
    out
}

/// The order of `(String, String)` pairs: by the first, then by the second.
pub open spec fn pair_lt(a: (Seq<char>, Seq<char>), b: (Seq<char>, Seq<char>)) -> bool {
    lex_lt(a.0, b.0) || (a.0 == b.0 && lex_lt(a.1, b.1))
}

/// `w` put into the sorted list `v` before the first entry it precedes, unless it is
/// already there.
pub open spec fn insert_pair(v: Seq<(Seq<char>, Seq<char>)>, w: (Seq<char>, Seq<char>)) -> Seq<
    (Seq<char>, Seq<char>),
>
    decreases v.len(),
{
    if v.len() == 0 {
        seq![w]
    } else if v[0] == w {
        v
    } else if pair_lt(w, v[0]) {
        seq![w] + v
    } else {
        seq![v[0]] + insert_pair(v.drop_first(), w)
    }
}

/// The targets among the first `n` issues: `(file, remark_id)` of each issue with a
/// remark id whose file is among `existing` and which is not logged in `attempted`,
/// sorted and without repetition.
pub open spec fn target_fold(
    issues: Seq<IssueView>,
    existing: Seq<Seq<char>>,
    attempted: Seq<Seq<char>>,
    n: int,
) -> Seq<(Seq<char>, Seq<char>)>
    decreases n,
{
    if n <= 0 {
        Seq::empty()
    } else {
        let rest = target_fold(issues, existing, attempted, n - 1);
        let (f, r, _, _) = issues[n - 1];
        if r.len() > 0 && existing.contains(f) && !attempted.contains(f + ":"@ + r) {
            insert_pair(rest, (f, r))
        } else {
            rest
        }
    }
}

/// The remarks to send to DeepL: the `(file, remark_id)` of the issues with a remark
/// id in the translated files `existing`, sorted, without repetition, and without the
/// remarks logged in the tracking file `tracking`.
pub open spec fn spec_deepl_targets(issues: Seq<IssueView>, existing: Seq<Seq<char>>, tracking: Seq<char>) -> Seq<
    (Seq<char>, Seq<char>),
> {
    target_fold(issues, existing, spec_attempted(tracking), issues.len() as int)
}

fn pair_eq(a: &(Vec<char>, Vec<char>), b: &(Vec<char>, Vec<char>)) -> (r: bool)
    ensures
        r == ((a.0@, a.1@) == (b.0@, b.1@)),
{
    chars_eq(&a.0, &b.0) && chars_eq(&a.1, &b.1)
}

fn pair_lt_exec(a: &(Vec<char>, Vec<char>), b: &(Vec<char>, Vec<char>)) -> (r: bool)
    ensures
        r == pair_lt((a.0@, a.1@), (b.0@, b.1@)),
{
    lex_lt_exec(&a.0, &b.0) || (chars_eq(&a.0, &b.0) && lex_lt_exec(&a.1, &b.1))
}

pub open spec fn pair_views(v: Seq<(Vec<char>, Vec<char>)>) -> Seq<(Seq<char>, Seq<char>)> {
    v.map_values(|p: (Vec<char>, Vec<char>)| (p.0@, p.1@))
}

fn insert_pair_exec(v: &mut Vec<(Vec<char>, Vec<char>)>, w: (Vec<char>, Vec<char>))
    ensures
        pair_views(final(v)@) == insert_pair(pair_views(old(v)@), (w.0@, w.1@)),
{
    let ghost o = pair_views(old(v)@);
    let ghost wv = (w.0@, w.1@);
    let mut i: usize = 0;
    assert(o.skip(0) =~= o);
    assert(o.take(0) + insert_pair(o, wv) =~= insert_pair(o, wv));
    while i < v.len() && !pair_eq(&v[i], &w) && !pair_lt_exec(&w, &v[i])
        invariant
            i <= v.len(),
            pair_views(v@) == o,
            wv == (w.0@, w.1@),
            insert_pair(o, wv) == o.take(i as int) + insert_pair(o.skip(i as int), wv),
        decreases v.len() - i,
    {
        proof {
            let rest = o.skip(i as int);
            assert(rest[0] == o[i as int]);
            assert(rest.drop_first() =~= o.skip(i + 1));
            assert(o.take(i + 1) =~= o.take(i as int) + seq![o[i as int]]);
            assert(o.take(i as int) + (seq![rest[0]] + insert_pair(rest.drop_first(), wv)) =~= o.take(
                i + 1,
            ) + insert_pair(o.skip(i + 1), wv));
        }
        i += 1;
    }
    if i < v.len() && pair_eq(&v[i], &w) {
        assert(o.skip(i as int)[0] == wv);
        assert(o.take(i as int) + o.skip(i as int) =~= o);
        return;
    }
    v.insert(i, w);
    proof {
        if i < o.len() {
            assert(o.skip(i as int)[0] == o[i as int]);
        }
        assert(pair_views(v@) =~= o.take(i as int) + (seq![wv] + o.skip(i as int)));
        if i == o.len() {
            assert(o.skip(i as int) =~= Seq::<(Seq<char>, Seq<char>)>::empty());
            assert(o.take(i as int) =~= o);
        }
    }
}

/// The remarks to send to DeepL: `(file, remark_id)` of the issues with a remark id
/// in one of the translated files `existing`, sorted, without repetition, and without
/// those logged in the tracking file.
pub fn deepl_targets(issues: &[Issue], existing: &[String], tracking: &str) -> (r: Vec<(String, String)>)
    ensures
        r@.map_values(|p: (String, String)| (p.0@, p.1@)) == spec_deepl_targets(
            issue_views(issues@),
            string_views(existing@),
            tracking@,
        ),
{
    let attempted = attempted_remarks(tracking);
    let ghost iv = issue_views(issues@);
    let ghost av = string_views(attempted@);
    let mut sorted: Vec<(Vec<char>, Vec<char>)> = Vec::new();
    let mut i: usize = 0;
    while i < issues.len()
        invariant
            i <= issues.len(),
            iv == issue_views(issues@),
            av == string_views(attempted@),
            av == spec_attempted(tracking@),
            pair_views(sorted@) == target_fold(iv, string_views(existing@), av, i as int),
        decreases issues.len() - i,
    {
        let f = chars_of(issues[i].file.as_str());
        let rid = chars_of(issues[i].remark_id.as_str());
        if rid.len() > 0 && strings_contain(existing, &f) {
            let mut key = chars_of(issues[i].file.as_str());
            key.push(':');
            push_all(&mut key, &rid);
            assert(key@ =~= f@ + ":"@ + rid@) by {
                reveal_strlit(":");
            }
            if !strings_contain(&attempted, &key) {
                insert_pair_exec(&mut sorted, (f, rid));
            }
        }
        i += 1;
    }
    let mut out: Vec<(String, String)> = Vec::new();
    let mut k: usize = 0;
    while k < sorted.len()
        invariant
            k <= sorted.len(),
            out@.map_values(|p: (String, String)| (p.0@, p.1@)) == pair_views(sorted@).take(k as int),
        decreases sorted.len() - k,
    {
        let ghost before = out@.map_values(|p: (String, String)| (p.0@, p.1@));
        let p = (string_of(&sorted[k].0), string_of(&sorted[k].1));
        out.push(p);
        assert(out@.map_values(|p: (String, String)| (p.0@, p.1@)) =~= before.push((p.0@, p.1@)));
        assert(pair_views(sorted@).take(k + 1) =~= pair_views(sorted@).take(k as int).push(
            pair_views(sorted@)[k as int],
        ));
        k += 1;
    }
    assert(pair_views(sorted@).take(sorted.len() as int) =~= pair_views(sorted@));
    out
}

// ---------------------------------------------------------------------------
// Outcome and tracking entry
// ---------------------------------------------------------------------------

/// `check: description` of each issue.
pub open spec fn issue_notes(issues: Seq<IssueView>) -> Seq<Seq<char>> {
    issues.map_values(|i: IssueView| i.2 + ": "@ + i.3)
}

fn notes_exec(issues: &[Issue]) -> (r: Vec<Vec<char>>)
    ensures
        views(r@) == issue_notes(issue_views(issues@)),
{
    let ghost iv = issue_views(issues@);
    let mut out: Vec<Vec<char>> = Vec::new();
    let mut i: usize = 0;
    while i < issues.len()
        invariant
            i <= issues.len(),
            iv == issue_views(issues@),
            views(out@) == issue_notes(iv).take(i as int),
        decreases issues.len() - i,
    {
        let mut n = chars_of(issues[i].check.as_str());
        push_str(&mut n, ": ");
        push_str(&mut n, issues[i].description.as_str());
        let ghost before = views(out@);
        out.push(n);
        assert(views(out@) =~= before.push(n@));
        assert(issue_notes(iv).take(i + 1) =~= issue_notes(iv).take(i as int).push(issue_notes(iv)[i as int]));
        i += 1;
    }
    assert(issue_notes(iv).take(issues.len() as int) =~= issue_notes(iv));
    out
}

/// Whether a DeepL translation is kept, and its status in the tracking file: kept when
/// the reply came and its issues (if any) are not critical; `fixed` without issues,
/// `fixed (minor issues: …)` with the remaining ones, and `unchanged (critical issues)`
/// when it is not kept.
pub open spec fn spec_deepl_outcome(replied: bool, issues: Seq<IssueView>) -> (bool, Seq<char>) {
    if !replied || spec_critical(issues) {
        (false, "unchanged (critical issues)"@)
    } else if issues.len() == 0 {
        (true, "fixed"@)
    } else {
        (true, "fixed (minor issues: "@ + join(issue_notes(issues), "; "@) + ")"@)
    }
}

/// Whether a DeepL translation is kept, and the status to log: `replied` tells whether
/// DeepL answered, `issues` are those of its translation.
pub fn deepl_outcome(replied: bool, issues: &[Issue]) -> (r: (bool, String))
    ensures
        (r.0, r.1@) == spec_deepl_outcome(replied, issue_views(issues@)),
{
    if !replied || has_critical_issues(issues) {
        (false, string_of(&chars_of("unchanged (critical issues)")))
    } else if issues.len() == 0 {
        (true, string_of(&chars_of("fixed")))
    } else {
        let mut s = chars_of("fixed (minor issues: ");
        let j = join_exec(&notes_exec(issues), &chars_of("; "));
        push_all(&mut s, &j);
        push_str(&mut s, ")");
        (true, string_of(&s))
    }
}

/// The issues of remark `rid` of file `file`.
pub open spec fn issues_of_remark(issues: Seq<IssueView>, file: Seq<char>, rid: Seq<char>) -> Seq<IssueView> {
    issues.filter(|i: IssueView| i.0 == file && i.1 == rid)
}

/// The entry logged in the tracking file for one attempt.
pub open spec fn spec_tracking_entry(
    file: Seq<char>,
    rid: Seq<char>,
    issues: Seq<IssueView>,
    status: Seq<char>,
    german: Seq<char>,
    old: Seq<char>,
    deepl: Seq<char>,
    used: bool,
) -> Seq<char> {
    "## "@ + file + ":"@ + rid + "\n\n"@ + "**Issue:** "@ + join(
        issue_notes(issues_of_remark(issues, file, rid)),
        "; "@,
    ) + "\n\n"@ + "**Status:** "@ + status + "\n\n"@ + "**German:**\n\n"@ + german + "\n\n"@
        + "**Old translation:**\n\n"@ + old + "\n\n"@ + "**DeepL translation"@ + (if used {
        ""@
    } else {
        " (not used \u{2014} failed verification)"@
    }) + ":**\n\n"@ + deepl + "\n\n"@ + "---\n\n"@
}

fn issues_for(issues: &[Issue], file: &str, rid: &str) -> (r: Vec<Issue>)
    ensures
        issue_views(r@) == issues_of_remark(issue_views(issues@), file@, rid@),
{
    let ghost iv = issue_views(issues@);
    let f = chars_of(file);
    let r = chars_of(rid);
    let mut out: Vec<Issue> = Vec::new();
    let mut i: usize = 0;
    while i < issues.len()
        invariant
            i <= issues.len(),
            iv == issue_views(issues@),
            f@ == file@,
            r@ == rid@,
            issue_views(out@) == issues_of_remark(iv.take(i as int), file@, rid@),
        decreases issues.len() - i,
    {
        reveal(Seq::filter);
        assert(iv.take(i + 1).drop_last() =~= iv.take(i as int));
        let x = &issues[i];
        if chars_eq(&chars_of(x.file.as_str()), &f) && chars_eq(&chars_of(x.remark_id.as_str()), &r) {
            let c = Issue {
                file: string_of(&chars_of(x.file.as_str())),
                remark_id: string_of(&chars_of(x.remark_id.as_str())),
                check: string_of(&chars_of(x.check.as_str())),
                description: string_of(&chars_of(x.description.as_str())),
            };
            let ghost before = issue_views(out@);
            out.push(c);
            assert(issue_views(out@) =~= before.push(crate::translate::verify::issue_view(c)));
        }
        i += 1;
    }
    assert(iv.take(issues.len() as int) =~= iv);
    out
}

/// The entry logged in the tracking file for one attempt: the remark, the issues that
/// were found for it, the status, the German body, the old translation and DeepL's
/// (marked as not used when it was not kept).
pub fn tracking_entry(
    file: &str,
    rid: &str,
    issues: &[Issue],
    status: &str,
    german: &str,
    old: &str,
    deepl: &str,
    used: bool,
) -> (r: String)
    ensures
        r@ == spec_tracking_entry(file@, rid@, issue_views(issues@), status@, german@, old@, deepl@, used),
{
    proof {
        reveal_strlit("");
    }
    let mine = issues_for(issues, file, rid);
    let notes = join_exec(&notes_exec(&mine), &chars_of("; "));
    let mut s = chars_of("## ");
    push_str(&mut s, file);
    push_str(&mut s, ":");
    push_str(&mut s, rid);
    push_str(&mut s, "\n\n");
    push_str(&mut s, "**Issue:** ");
    push_all(&mut s, &notes);
    push_str(&mut s, "\n\n");
    push_str(&mut s, "**Status:** ");
    push_str(&mut s, status);
    push_str(&mut s, "\n\n");
    push_str(&mut s, "**German:**\n\n");
    push_str(&mut s, german);
    push_str(&mut s, "\n\n");
    push_str(&mut s, "**Old translation:**\n\n");
    push_str(&mut s, old);
    push_str(&mut s, "\n\n");
    push_str(&mut s, "**DeepL translation");
    if !used {
        push_str(&mut s, " (not used \u{2014} failed verification)");
    }
    push_str(&mut s, ":**\n\n");
    push_str(&mut s, deepl);
    push_str(&mut s, "\n\n");
    push_str(&mut s, "---\n\n");
    assert(s@ =~= spec_tracking_entry(file@, rid@, issue_views(issues@), status@, german@, old@, deepl@, used));
    string_of(&s)
}

// ---------------------------------------------------------------------------
// Context
// ---------------------------------------------------------------------------

/// The context sent to DeepL with a remark: the ambiguous glossary terms (if any) and
/// the translation of the preceding remark (if any), separated by a blank line;
/// `None` when there is neither.
pub open spec fn spec_deepl_context(ambiguous: Seq<char>, previous: Option<Seq<char>>) -> Option<Seq<char>> {
    match previous {
        None => if ambiguous.len() == 0 {
            None
        } else {
            Some(ambiguous)
        },
        Some(p) => if ambiguous.len() == 0 {
            Some(p)
        } else {
            Some(ambiguous + "\n\n"@ + p)
        },
    }
}

/// The context sent to DeepL with a remark.
pub fn deepl_context(ambiguous: &str, previous: Option<&str>) -> (r: Option<String>)
    ensures
        match r {
            Some(t) => spec_deepl_context(ambiguous@, match previous {
                Some(p) => Some(p@),
                None => None,
            }) == Some(t@),
            None => spec_deepl_context(ambiguous@, match previous {
                Some(p) => Some(p@),
                None => None,
            }) is None,
        },
{
    let a = chars_of(ambiguous);
    match previous {
        None => if a.len() == 0 {
            None
        } else {
            Some(string_of(&a))
        },
        Some(p) => if a.len() == 0 {
            Some(string_of(&chars_of(p)))
        } else {
            let mut t = a;
            push_str(&mut t, "\n\n");
            push_str(&mut t, p);
            Some(string_of(&t))
        },
    }
}

/// Whether a DeepL error means the quota is used up, which ends the run.
pub fn quota_exceeded(error_message: &str) -> (r: bool)
    ensures
        r == contains(error_message@, "Quota exceeded"@),
{
    contains_exec(&chars_of(error_message), "Quota exceeded")
}

} // verus!
