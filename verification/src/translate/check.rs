//! Checking a translated document against its German original, remark by remark.
use vstd::prelude::*;
use crate::translate::common::{
    lookup_last, remark_view, remark_views, spec_anchor_from_doc_heading, string_views, Remark,
};
use crate::translate::verify::{issue_views, remark_issues, Issue, IssueView};
use crate::text::{chars_of, push_str, string_of};

verus! {

/// The anchor and body of each remark (what a map from anchor to remark keeps is the
/// last remark with each anchor).
pub open spec fn anchor_pairs(rs: Seq<(Seq<char>, Seq<char>)>) -> Seq<(Seq<char>, Seq<char>)> {
    rs.map_values(|r: (Seq<char>, Seq<char>)| (spec_anchor_from_doc_heading(r.0), r.1))
}

/// The key of a remark in the skip list and in reports: `filename:remark_id`.
pub open spec fn remark_key(file: Seq<char>, rid: Seq<char>) -> Seq<char> {
    file + ":"@ + rid
}

/// Going through the German remarks in order: a remark on the skip list is passed
/// over; one without an English remark of the same anchor is missing; the others are
/// verified against the English remark. With `gate`, remarks without an anchor are
/// passed over too and missing remarks are listed (`filename:remark_id`); without it,
/// missing remarks are only passed over.
#[verifier::opaque]
pub open spec fn check_fold(
    file: Seq<char>,
    de: Seq<(Seq<char>, Seq<char>)>,
    en: Seq<(Seq<char>, Seq<char>)>,
    skip: Seq<Seq<char>>,
    ignore: Seq<Seq<char>>,
    tolerance: nat,
    gate: bool,
) -> (Seq<Seq<char>>, Seq<IssueView>)
    decreases de.len(),
{
    if de.len() == 0 {
        (Seq::empty(), Seq::empty())
    } else {
        let (m, is) = check_fold(file, de.drop_last(), en, skip, ignore, tolerance, gate);
        let rid = spec_anchor_from_doc_heading(de.last().0);
        if (gate && rid.len() == 0) || skip.contains(remark_key(file, rid)) {
            (m, is)
        } else {
            match lookup_last(anchor_pairs(en), rid) {
                None => if gate {
                    (m.push(remark_key(file, rid)), is)
                } else {
                    (m, is)
                },
                Some(eb) => (m, is + remark_issues(file, rid, de.last().1, eb, tolerance, ignore)),
            }
        }
    }
}

fn lookup_body(en: &[Remark], rid: &[char]) -> (r: Option<usize>)
    ensures
        r matches Some(k) ==> k < en.len() && lookup_last(anchor_pairs(remark_views(en@)), rid@) == Some(
            en@[k as int].body@,
        ),
        r is None ==> lookup_last(anchor_pairs(remark_views(en@)), rid@) is None,
{
    let ghost ps = anchor_pairs(remark_views(en@));
    let mut j = en.len();
    assert(ps.take(j as int) =~= ps);
    while j > 0
        invariant
            j <= en.len(),
            ps == anchor_pairs(remark_views(en@)),
            lookup_last(ps, rid@) == lookup_last(ps.take(j as int), rid@),
        decreases j,
    {
        proof {
            assert(ps.take(j as int).drop_last() =~= ps.take(j - 1));
        }
        let a = chars_of(crate::translate::common::anchor_from_doc_heading(en[j - 1].heading.as_str()).as_str());
        assert(ps[j - 1] == (spec_anchor_from_doc_heading(en@[j - 1].heading@), en@[j - 1].body@));
        if crate::text::chars_eq(&a, rid) {
            return Some(j - 1);
        }
        j -= 1;
    }
    None
}

/// The step of `check_fold` for one German remark.
#[verifier::opaque]
pub open spec fn check_step(
    file: Seq<char>,
    r: (Seq<char>, Seq<char>),
    en: Seq<(Seq<char>, Seq<char>)>,
    skip: Seq<Seq<char>>,
    ignore: Seq<Seq<char>>,
    tolerance: nat,
    gate: bool,
) -> (Seq<Seq<char>>, Seq<IssueView>) {
    let rid = spec_anchor_from_doc_heading(r.0);
    if (gate && rid.len() == 0) || skip.contains(remark_key(file, rid)) {
        (Seq::empty(), Seq::empty())
    } else {
        match lookup_last(anchor_pairs(en), rid) {
            None => if gate {
                (seq![remark_key(file, rid)], Seq::empty())
            } else {
                (Seq::empty(), Seq::empty())
            },
            Some(eb) => (Seq::empty(), remark_issues(file, rid, r.1, eb, tolerance, ignore)),
        }
    }
}

proof fn lemma_check_fold_step(
    file: Seq<char>,
    de: Seq<(Seq<char>, Seq<char>)>,
    en: Seq<(Seq<char>, Seq<char>)>,
    skip: Seq<Seq<char>>,
    ignore: Seq<Seq<char>>,
    tolerance: nat,
    gate: bool,
)
    requires
        de.len() > 0,
    ensures
        ({
            let (m0, i0) = check_fold(file, de.drop_last(), en, skip, ignore, tolerance, gate);
            let (m1, i1) = check_step(file, de.last(), en, skip, ignore, tolerance, gate);
            check_fold(file, de, en, skip, ignore, tolerance, gate) == (m0 + m1, i0 + i1)
        }),
{
    reveal(check_fold);
    reveal(check_step);
    let (m0, i0) = check_fold(file, de.drop_last(), en, skip, ignore, tolerance, gate);
    assert(m0 + Seq::<Seq<char>>::empty() =~= m0);
    assert(i0 + Seq::<IssueView>::empty() =~= i0);
    assert(m0.push(remark_key(file, spec_anchor_from_doc_heading(de.last().0))) =~= m0 + seq![
        remark_key(file, spec_anchor_from_doc_heading(de.last().0)),
    ]);
}

fn check_one(
    filename: &str,
    i: usize,
    de: &Remark,
    en_remarks: &[Remark],
    skip: &[String],
    ignore_words: &[String],
    tolerance: usize,
    gate: bool,
    missing: &mut Vec<String>,
    issues: &mut Vec<Issue>,
)
    ensures
        ({
            let (m, is) = check_step(
                filename@,
                (de.heading@, de.body@),
                remark_views(en_remarks@),
                string_views(skip@),
                string_views(ignore_words@),
                tolerance as nat,
                gate,
            );
            &&& string_views(final(missing)@) == string_views(old(missing)@) + m
            &&& issue_views(final(issues)@) == issue_views(old(issues)@) + is
        }),
{
    let ghost m0 = string_views(missing@);
    let ghost i0 = issue_views(issues@);
    proof {
        reveal(check_step);
    }
    let rid = crate::translate::common::anchor_from_doc_heading(de.heading.as_str());
    let rc = chars_of(rid.as_str());
    if (gate && rc.len() == 0) || crate::translate::reuse::should_skip_remark(skip, filename, rid.as_str()) {
        assert(m0 + Seq::<Seq<char>>::empty() =~= m0);
        assert(i0 + Seq::<IssueView>::empty() =~= i0);
        return;
    }
    match lookup_body(en_remarks, &rc) {
        None => {
            assert(i0 + Seq::<IssueView>::empty() =~= i0);
            if gate {
                let mut key = chars_of(filename);
                push_str(&mut key, ":");
                push_str(&mut key, rid.as_str());
                missing.push(string_of(&key));
                assert(string_views(missing@) =~= m0 + seq![key@]);
            } else {
                assert(m0 + Seq::<Seq<char>>::empty() =~= m0);
            }
        },
        Some(k) => {
            assert(m0 + Seq::<Seq<char>>::empty() =~= m0);
            crate::translate::verify::verify_remark(
                filename,
                i,
                rid.as_str(),
                de,
                &en_remarks[k],
                issues,
                tolerance,
                ignore_words,
            );
        },
    }
}

/// Check the German remarks of a document against the English ones, remark by remark
/// in order: remarks on the skip list are passed over, remarks with an English remark
/// of the same anchor are verified (their issues appended to `issues`), and, with
/// `gate`, remarks without an anchor are passed over and those without an English
/// remark are appended to `missing` as `filename:remark_id`.
#[verifier::spinoff_prover]
#[verifier::rlimit(40)]
pub fn check_remarks(
    filename: &str,
    de_remarks: &[Remark],
    en_remarks: &[Remark],
    skip: &[String],
    ignore_words: &[String],
    tolerance: usize,
    gate: bool,
    missing: &mut Vec<String>,
    issues: &mut Vec<Issue>,
)
    ensures
        ({
            let (m, is) = check_fold(
                filename@,
                remark_views(de_remarks@),
                remark_views(en_remarks@),
                string_views(skip@),
                string_views(ignore_words@),
                tolerance as nat,
                gate,
            );
            &&& string_views(final(missing)@) == string_views(old(missing)@) + m
            &&& issue_views(final(issues)@) == issue_views(old(issues)@) + is
        }),
{
    let ghost dv = remark_views(de_remarks@);
    let ghost ev = remark_views(en_remarks@);
    let ghost sv = string_views(skip@);
    let ghost iv = string_views(ignore_words@);
    let ghost m0 = string_views(missing@);
    let ghost i0 = issue_views(issues@);
    proof {
        reveal(check_fold);
        assert(m0 + Seq::<Seq<char>>::empty() =~= m0);
        assert(i0 + Seq::<IssueView>::empty() =~= i0);
    }
    let mut i: usize = 0;
    while i < de_remarks.len()
        invariant
            i <= de_remarks.len(),
            dv == remark_views(de_remarks@),
            ev == remark_views(en_remarks@),
            sv == string_views(skip@),
            iv == string_views(ignore_words@),
            string_views(missing@) == m0 + check_fold(filename@, dv.take(i as int), ev, sv, iv, tolerance as nat, gate).0,
            issue_views(issues@) == i0 + check_fold(filename@, dv.take(i as int), ev, sv, iv, tolerance as nat, gate).1,
        decreases de_remarks.len() - i,
    {
        let ghost mb = string_views(missing@);
        let ghost ib = issue_views(issues@);
        proof {
            assert(dv.take(i + 1).drop_last() =~= dv.take(i as int));
            lemma_check_fold_step(filename@, dv.take(i + 1), ev, sv, iv, tolerance as nat, gate);
        }
        let de = &de_remarks[i];
        assert(dv.take(i + 1).last() == (de.heading@, de.body@));
        check_one(filename, i, de, en_remarks, skip, ignore_words, tolerance, gate, missing, issues);
        proof {
            let (f0, g0) = check_fold(filename@, dv.take(i as int), ev, sv, iv, tolerance as nat, gate);
            let (f1, g1) = check_step(filename@, (de.heading@, de.body@), ev, sv, iv, tolerance as nat, gate);
            assert(string_views(missing@) =~= m0 + (f0 + f1));
            assert(issue_views(issues@) =~= i0 + (g0 + g1));
        }
        i += 1;
    }
    assert(dv.take(de_remarks.len() as int) =~= dv);
}

/// The changed remarks (`(index, anchor)`) that are stale: with an anchor, not on the
/// skip list, and present in English.
pub open spec fn stale_fold(
    file: Seq<char>,
    changed: Seq<(int, Seq<char>)>,
    en: Seq<(Seq<char>, Seq<char>)>,
    skip: Seq<Seq<char>>,
) -> Seq<Seq<char>>
    decreases changed.len(),
{
    if changed.len() == 0 {
        Seq::empty()
    } else {
        let prev = stale_fold(file, changed.drop_last(), en, skip);
        let a = changed.last().1;
        if a.len() == 0 || skip.contains(remark_key(file, a)) || lookup_last(anchor_pairs(en), a) is None {
            prev
        } else {
            prev.push(remark_key(file, a))
        }
    }
}

/// The remarks whose German text changed since the translation and that have an
/// English remark (`filename:remark_id`), skip-listed ones left out.
pub fn stale_remarks(filename: &str, changed: &[(usize, String)], en_remarks: &[Remark], skip: &[String]) -> (r: Vec<
    String,
>)
    ensures
        string_views(r@) == stale_fold(
            filename@,
            crate::translate::common::change_views(changed@),
            remark_views(en_remarks@),
            string_views(skip@),
        ),
{
    let ghost cv = crate::translate::common::change_views(changed@);
    let mut out: Vec<String> = Vec::new();
    let mut i: usize = 0;
    while i < changed.len()
        invariant
            i <= changed.len(),
            cv == crate::translate::common::change_views(changed@),
            string_views(out@) == stale_fold(filename@, cv.take(i as int), remark_views(en_remarks@), string_views(skip@)),
        decreases changed.len() - i,
    {
        proof {
            assert(cv.take(i + 1).drop_last() =~= cv.take(i as int));
        }
        let a = changed[i].1.as_str();
        assert(cv.take(i + 1).last().1 == a@);
        let ac = chars_of(a);
        if ac.len() > 0 && !crate::translate::reuse::should_skip_remark(skip, filename, a) && lookup_body(
            en_remarks,
            &ac,
        ).is_some() {
            let mut key = chars_of(filename);
            push_str(&mut key, ":");
            push_str(&mut key, a);
            let ghost before = out@;
            out.push(string_of(&key));
            assert(string_views(out@) =~= string_views(before).push(key@));
        }
        i += 1;
    }
    assert(cv.take(changed.len() as int) =~= cv);
    out
}

/// The remarks of an English document with each remark whose German counterpart (at
/// the same position) has the anchor `remark_id` given the German body back.
pub open spec fn restore_skipped_fold(
    de: Seq<(Seq<char>, Seq<char>)>,
    en: Seq<(Seq<char>, Seq<char>)>,
    rid: Seq<char>,
    n: int,
) -> Seq<(Seq<char>, Seq<char>)>
    decreases n,
{
    if n <= 0 || n > de.len() {
        en
    } else {
        let prev = restore_skipped_fold(de, en, rid, n - 1);
        let k = n - 1;
        if spec_anchor_from_doc_heading(de[k].0) == rid && k < prev.len() && prev[k].1 != de[k].1 {
            prev.update(k, (prev[k].0, de[k].1))
        } else {
            prev
        }
    }
}

/// Give the English remarks whose German counterpart (by position) has the anchor
/// `remark_id` back their German body; returns whether anything changed.
pub fn restore_skipped(de_remarks: &[Remark], en_remarks: &mut Vec<Remark>, remark_id: &str) -> (changed: bool)
    ensures
        remark_views(final(en_remarks)@) == restore_skipped_fold(
            remark_views(de_remarks@),
            remark_views(old(en_remarks)@),
            remark_id@,
            de_remarks@.len() as int,
        ),
        changed == (remark_views(final(en_remarks)@) != remark_views(old(en_remarks)@)),
{
    let ghost dv = remark_views(de_remarks@);
    let ghost e0 = remark_views(en_remarks@);
    let mut changed = false;
    let mut i: usize = 0;
    while i < de_remarks.len()
        invariant
            i <= de_remarks.len(),
            dv == remark_views(de_remarks@),
            remark_views(en_remarks@) == restore_skipped_fold(dv, e0, remark_id@, i as int),
            remark_views(en_remarks@).len() == e0.len(),
            changed == (remark_views(en_remarks@) != e0),
            forall|k: int| 0 <= k < en_remarks@.len() && remark_views(en_remarks@)[k] != e0[k] ==> k < i,
        decreases de_remarks.len() - i,
    {
        let rid = crate::translate::common::anchor_from_doc_heading(de_remarks[i].heading.as_str());
        assert(dv[i as int] == (de_remarks@[i as int].heading@, de_remarks@[i as int].body@));
        if crate::text::chars_eq(&chars_of(rid.as_str()), &chars_of(remark_id)) && i < en_remarks.len() && !crate::text::chars_eq(
            &chars_of(en_remarks[i].body.as_str()),
            &chars_of(de_remarks[i].body.as_str()),
        ) {
            let ghost before = remark_views(en_remarks@);
            let heading = string_of(&chars_of(en_remarks[i].heading.as_str()));
            let body = string_of(&chars_of(de_remarks[i].body.as_str()));
            en_remarks.set(i, Remark { heading, body });
            assert(remark_views(en_remarks@) =~= before.update(i as int, (before[i as int].0, dv[i as int].1)));
            assert(remark_views(en_remarks@)[i as int] != before[i as int]);
            assert(remark_views(en_remarks@)[i as int] != e0[i as int]);
            changed = true;
        }
        i += 1;
    }
    changed
}

/// The lines a check reports: `MISSING x` for each missing translation,
/// `STALE x` for each stale one and `QUALITY file:remark [check] description` for each
/// issue, in that order.
pub open spec fn spec_check_lines(missing: Seq<Seq<char>>, stale: Seq<Seq<char>>, issues: Seq<IssueView>) -> Seq<
    Seq<char>,
> {
    missing.map_values(|m: Seq<char>| "MISSING "@ + m) + stale.map_values(|x: Seq<char>| "STALE "@ + x)
        + issues.map_values(
        |i: IssueView| "QUALITY "@ + i.0 + ":"@ + i.1 + " ["@ + i.2 + "] "@ + i.3,
    )
}

/// Whether the translations fail the check (anything missing, stale or with issues),
/// and the lines to report.
pub fn check_report(missing: &[String], stale: &[String], issues: &[Issue]) -> (r: (bool, Vec<String>))
    ensures
        r.0 == (missing.len() > 0 || stale.len() > 0 || issues.len() > 0),
        string_views(r.1@) == spec_check_lines(string_views(missing@), string_views(stale@), issue_views(issues@)),
{
    let ghost mv = string_views(missing@);
    let ghost sv = string_views(stale@);
    let ghost iv = issue_views(issues@);
    let mut out: Vec<String> = Vec::new();
    let mut k: usize = 0;
    while k < missing.len()
        invariant
            k <= missing.len(),
            mv == string_views(missing@),
            string_views(out@) == mv.take(k as int).map_values(|m: Seq<char>| "MISSING "@ + m),
        decreases missing.len() - k,
    {
        let ghost before = string_views(out@);
        let mut l = chars_of("MISSING ");
        push_str(&mut l, missing[k].as_str());
        let x = string_of(&l);
        out.push(x);
        assert(string_views(out@) =~= before.push(x@));
        assert(mv.take(k + 1).map_values(|m: Seq<char>| "MISSING "@ + m) =~= mv.take(k as int).map_values(
            |m: Seq<char>| "MISSING "@ + m,
        ).push("MISSING "@ + mv[k as int]));
        k += 1;
    }
    assert(mv.take(missing.len() as int) =~= mv);
    let ghost a = string_views(out@);
    let mut k: usize = 0;
    while k < stale.len()
        invariant
            k <= stale.len(),
            sv == string_views(stale@),
            string_views(out@) == a + sv.take(k as int).map_values(|x: Seq<char>| "STALE "@ + x),
        decreases stale.len() - k,
    {
        let ghost before = string_views(out@);
        let mut l = chars_of("STALE ");
        push_str(&mut l, stale[k].as_str());
        let x = string_of(&l);
        out.push(x);
        assert(string_views(out@) =~= before.push(x@));
        assert(sv.take(k + 1).map_values(|y: Seq<char>| "STALE "@ + y) =~= sv.take(k as int).map_values(
            |y: Seq<char>| "STALE "@ + y,
        ).push("STALE "@ + sv[k as int]));
        k += 1;
    }
    assert(sv.take(stale.len() as int) =~= sv);
    let ghost b = string_views(out@);
    let mut k: usize = 0;
    while k < issues.len()
        invariant
            k <= issues.len(),
            iv == issue_views(issues@),
            string_views(out@) == b + iv.take(k as int).map_values(
                |i: IssueView| "QUALITY "@ + i.0 + ":"@ + i.1 + " ["@ + i.2 + "] "@ + i.3,
            ),
        decreases issues.len() - k,
    {
        let ghost before = string_views(out@);
        let x = &issues[k];
        let mut l = chars_of("QUALITY ");
        push_str(&mut l, x.file.as_str());
        push_str(&mut l, ":");
        push_str(&mut l, x.remark_id.as_str());
        push_str(&mut l, " [");
        push_str(&mut l, x.check.as_str());
        push_str(&mut l, "] ");
        push_str(&mut l, x.description.as_str());
        let y = string_of(&l);
        out.push(y);
        assert(string_views(out@) =~= before.push(y@));
        assert(iv.take(k + 1).map_values(
            |i: IssueView| "QUALITY "@ + i.0 + ":"@ + i.1 + " ["@ + i.2 + "] "@ + i.3,
        ) =~= iv.take(k as int).map_values(
            |i: IssueView| "QUALITY "@ + i.0 + ":"@ + i.1 + " ["@ + i.2 + "] "@ + i.3,
        ).push("QUALITY "@ + iv[k as int].0 + ":"@ + iv[k as int].1 + " ["@ + iv[k as int].2 + "] "@ + iv[k as int].3));
        k += 1;
    }
    assert(iv.take(issues.len() as int) =~= iv);
    (missing.len() > 0 || stale.len() > 0 || issues.len() > 0, out)
}

} // verus!
