//! The decisions of a translation run, as steps: the caller performs what a step
//! asks for (a request to the model, a repair, writing a remark) and hands back what
//! came of it.
use vstd::prelude::*;
use crate::text::{chars_of, contains, contains_exec, string_of, trim, trim_exec, views};
use crate::translate::batch::{batch_end, batch_end_from};
use crate::translate::common::{
    anchor_from_doc_heading, count_emphasized, count_emphasized_segments, emphasis_to_html,
    extract_math, remark_views, spec_anchor_from_doc_heading, spec_emphasis_checklist,
    spec_emphasis_to_html, spec_extract_math, spec_split_segments, spec_translation_user_msg,
    string_views, translation_user_msg, Remark,
};
use crate::translate::common::{parse_document, spec_parse_document};
use crate::translate::session::{document_text, render_document};
use crate::translate::reuse::{first_similar, should_skip_remark, spec_word_key, strings_contain, ReuseMap};
use crate::translate::session::{
    finish_translation, fix_instructions, retry_message, spec_finish_translation,
    spec_fix_instructions, spec_retry_message, MAX_REMARK_RETRIES,
};
use crate::translate::verify::{issue_views, remark_issues, verify_remark, Issue, IssueView};

verus! {

// ---------------------------------------------------------------------------
// One remark: requests, replies, emphasis repair and retries
// ---------------------------------------------------------------------------

/// What came of the last thing a remark step asked for.
pub enum ModelEvent {
    /// The model answered a request with this text.
    Reply(String),
    /// The request failed.
    Failed,
    /// The segment-by-segment emphasis repair gave this body, or nothing.
    Repaired(Option<String>),
}

/// What to do next for a remark.
pub enum RemarkAction {
    /// Send this message to the model; `true` when its reply writes emphasis as
    /// `<em>`/`<strong>` tags.
    Ask(String, bool),
    /// Repair the emphasis of the best body so far, segment by segment.
    Repair,
    /// The remark is done: write this body.
    Finish(String),
}

/// Where the translation of a remark stands.
pub struct RemarkState {
    /// The number of the request whose answer is awaited (0 for the first).
    pub attempt: usize,
    /// The best body so far: the German body until a reply has come.
    pub best_body: String,
    /// Whether the awaited reply writes emphasis as tags.
    pub restore_html: bool,
}

/// A model event as text.
pub enum EventView {
    Reply(Seq<char>),
    Failed,
    Repaired(Option<Seq<char>>),
}

/// A remark action as text.
pub enum ActionView {
    Ask(Seq<char>, bool),
    Repair,
    Finish(Seq<char>),
}

/// A remark state as numbers and text.
pub type StateView = (nat, Seq<char>, bool);

pub open spec fn event_view(e: ModelEvent) -> EventView {
    match e {
        ModelEvent::Reply(t) => EventView::Reply(t@),
        ModelEvent::Failed => EventView::Failed,
        ModelEvent::Repaired(o) => EventView::Repaired(
            match o {
                Some(t) => Some(t@),
                None => None,
            },
        ),
    }
}

pub open spec fn action_view(a: RemarkAction) -> ActionView {
    match a {
        RemarkAction::Ask(m, h) => ActionView::Ask(m@, h),
        RemarkAction::Repair => ActionView::Repair,
        RemarkAction::Finish(b) => ActionView::Finish(b@),
    }
}

pub open spec fn state_view(s: RemarkState) -> StateView {
    (s.attempt as nat, s.best_body@, s.restore_html)
}

/// The issues of an English body against the German one (the file name and remark id
/// that label them play no part here).
#[verifier::opaque]
pub open spec fn body_issues(de: Seq<char>, en: Seq<char>, tol: nat, ignored: Seq<Seq<char>>) -> Seq<
    IssueView,
> {
    remark_issues(Seq::empty(), Seq::empty(), de, en, tol, ignored)
}

/// The number of emphasis issues.
pub open spec fn emphasis_issue_count(issues: Seq<IssueView>) -> nat
    decreases issues.len(),
{
    if issues.len() == 0 {
        0
    } else {
        emphasis_issue_count(issues.drop_last()) + if issues.last().2 == "emphasis"@ {
            1nat
        } else {
            0nat
        }
    }
}

/// Whether every issue is an emphasis issue.
pub open spec fn only_emphasis(issues: Seq<IssueView>) -> bool {
    emphasis_issue_count(issues) == issues.len()
}

/// The first request for a remark: its text (math blocks replaced by placeholders)
/// with the context and glossary section; emphasis is sent as tags when the text has
/// any.
pub open spec fn first_request(de: Seq<char>, glossary_section: Seq<char>, context: Seq<Seq<char>>) -> (
    Seq<char>,
    bool,
) {
    let text = spec_extract_math(de).0;
    if contains(text, "_"@) || contains(text, "**"@) {
        (spec_translation_user_msg(spec_emphasis_to_html(text), context, glossary_section), true)
    } else {
        (spec_translation_user_msg(text, context, glossary_section), false)
    }
}

/// A retry request: the instructions drawn from the issues of the best body so far.
pub open spec fn retry_request(
    de: Seq<char>,
    glossary_section: Seq<char>,
    tol: nat,
    ignored: Seq<Seq<char>>,
    best: Seq<char>,
) -> Seq<char> {
    let text = spec_extract_math(de).0;
    spec_retry_message(
        glossary_section,
        spec_emphasis_checklist(text),
        spec_fix_instructions(body_issues(de, best, tol, ignored), de),
        text,
    )
}

/// After a body with issues: ask again while retries are left, else finish with it.
pub open spec fn go_on(
    de: Seq<char>,
    glossary_section: Seq<char>,
    tol: nat,
    ignored: Seq<Seq<char>>,
    attempt: nat,
    best: Seq<char>,
) -> (StateView, ActionView) {
    if attempt < MAX_REMARK_RETRIES {
        (
            (attempt + 1, best, false),
            ActionView::Ask(retry_request(de, glossary_section, tol, ignored, best), false),
        )
    } else {
        ((attempt, best, false), ActionView::Finish(best))
    }
}

/// One step of the translation of a remark with the German body `de`.
/// - A failed request finishes with the best body so far.
/// - A reply becomes the best body; without issues it is finished; when all its issues
///   are emphasis issues and the German body has at least two emphasised segments, the
///   emphasis is repaired segment by segment; otherwise the remark is asked again, at
///   most `MAX_REMARK_RETRIES` times, with instructions drawn from the issues.
/// - A repaired body without issues is finished; one with fewer emphasis issues than
///   the best body takes its place; then the remark is asked again as above.
pub open spec fn spec_remark_step(
    de: Seq<char>,
    glossary_section: Seq<char>,
    tol: nat,
    ignored: Seq<Seq<char>>,
    st: StateView,
    ev: EventView,
) -> (StateView, ActionView) {
    let (attempt, best, html) = st;
    match ev {
        EventView::Failed => (st, ActionView::Finish(best)),
        EventView::Reply(reply) => {
            let body = spec_finish_translation(reply, html, de, spec_extract_math(de).1);
            let issues = body_issues(de, body, tol, ignored);
            if issues.len() == 0 {
                ((attempt, body, html), ActionView::Finish(body))
            } else if only_emphasis(issues) && count_emphasized(spec_split_segments(de)) >= 2 {
                ((attempt, body, html), ActionView::Repair)
            } else {
                go_on(de, glossary_section, tol, ignored, attempt, body)
            }
        },
        EventView::Repaired(None) => go_on(de, glossary_section, tol, ignored, attempt, best),
        EventView::Repaired(Some(rep)) => {
            let ri = body_issues(de, rep, tol, ignored);
            if ri.len() == 0 {
                ((attempt, rep, html), ActionView::Finish(rep))
            } else {
                let next = if emphasis_issue_count(ri) < emphasis_issue_count(
                    body_issues(de, best, tol, ignored),
                ) {
                    rep
                } else {
                    best
                };
                go_on(de, glossary_section, tol, ignored, attempt, next)
            }
        },
    }
}

fn copy_string(s: &str) -> (r: String)
    ensures
        r@ == s@,
{
    string_of(&chars_of(s))
}

fn issues_of(de: &Remark, body: &str, tol: usize, ignore: &[String]) -> (r: Vec<Issue>)
    ensures
        issue_views(r@) == body_issues(de.body@, body@, tol as nat, string_views(ignore@)),
{
    proof {
        reveal(body_issues);
    }
    let en = Remark { heading: String::new(), body: copy_string(body) };
    let mut issues: Vec<Issue> = Vec::new();
    let empty = String::new();
    verify_remark(empty.as_str(), 0, empty.as_str(), de, &en, &mut issues, tol, ignore);
    assert(issue_views(Seq::<Issue>::empty()) + body_issues(de.body@, body@, tol as nat, string_views(ignore@))
        =~= body_issues(de.body@, body@, tol as nat, string_views(ignore@)));
    issues
}

fn emphasis_issues(issues: &[Issue]) -> (n: usize)
    ensures
        n == emphasis_issue_count(issue_views(issues@)),
{
    let ghost iv = issue_views(issues@);
    let mut n: usize = 0;
    let mut i: usize = 0;
    while i < issues.len()
        invariant
            i <= issues.len(),
            iv == issue_views(issues@),
            n == emphasis_issue_count(iv.take(i as int)),
            n <= i,
        decreases issues.len() - i,
    {
        assert(iv.take(i + 1).drop_last() =~= iv.take(i as int));
        proof {
            reveal_strlit("emphasis");
        }
        if crate::text::chars_eq(&chars_of(issues[i].check.as_str()), &chars_of("emphasis")) {
            n += 1;
        }
        i += 1;
    }
    assert(iv.take(issues.len() as int) =~= iv);
    n
}

/// The first request for a remark, and the state that awaits its answer.
pub fn remark_start(de: &Remark, glossary_section: &str, context: &[String]) -> (r: (RemarkState, RemarkAction))
    ensures
        ({
            let (msg, html) = first_request(de.body@, glossary_section@, string_views(context@));
            &&& state_view(r.0) == (0nat, de.body@, html)
            &&& action_view(r.1) == ActionView::Ask(msg, html)
        }),
{
    let (text, _blocks) = extract_math(de.body.as_str());
    let tc = chars_of(text.as_str());
    let html = contains_exec(&tc, "_") || contains_exec(&tc, "**");
    let msg = if html {
        translation_user_msg(emphasis_to_html(text.as_str()).as_str(), context, glossary_section)
    } else {
        translation_user_msg(text.as_str(), context, glossary_section)
    };
    (RemarkState { attempt: 0, best_body: copy_string(de.body.as_str()), restore_html: html }, RemarkAction::Ask(msg, html))
}

fn go_on_exec(
    de: &Remark,
    glossary_section: &str,
    tol: usize,
    ignore: &[String],
    attempt: usize,
    best: String,
) -> (r: (RemarkState, RemarkAction))
    requires
        attempt <= MAX_REMARK_RETRIES,
    ensures
        (state_view(r.0), action_view(r.1)) == go_on(
            de.body@,
            glossary_section@,
            tol as nat,
            string_views(ignore@),
            attempt as nat,
            best@,
        ),
        r.0.attempt <= MAX_REMARK_RETRIES,
{
    if attempt < MAX_REMARK_RETRIES {
        let (text, _blocks) = extract_math(de.body.as_str());
        let issues = issues_of(de, best.as_str(), tol, ignore);
        let instructions = fix_instructions(&issues, de.body.as_str());
        let msg = retry_message(glossary_section, text.as_str(), instructions.as_str());
        (RemarkState { attempt: attempt + 1, best_body: best, restore_html: false }, RemarkAction::Ask(msg, false))
    } else {
        let b = copy_string(best.as_str());
        (RemarkState { attempt, best_body: best, restore_html: false }, RemarkAction::Finish(b))
    }
}

/// One step of the translation of the remark `de`: what to do after the event `ev`,
/// and where the remark then stands.
pub fn remark_step(
    de: &Remark,
    glossary_section: &str,
    tol: usize,
    ignore: &[String],
    st: RemarkState,
    ev: ModelEvent,
) -> (r: (RemarkState, RemarkAction))
    requires
        st.attempt <= MAX_REMARK_RETRIES,
    ensures
        (state_view(r.0), action_view(r.1)) == spec_remark_step(
            de.body@,
            glossary_section@,
            tol as nat,
            string_views(ignore@),
            state_view(st),
            event_view(ev),
        ),
        r.0.attempt <= MAX_REMARK_RETRIES,
{
    let ghost sv = state_view(st);
    match ev {
        ModelEvent::Failed => {
            let b = copy_string(st.best_body.as_str());
            (st, RemarkAction::Finish(b))
        },
        ModelEvent::Reply(reply) => {
            let (_text, blocks) = extract_math(de.body.as_str());
            let body = finish_translation(reply.as_str(), st.restore_html, de.body.as_str(), &blocks);
            let issues = issues_of(de, body.as_str(), tol, ignore);
            if issues.len() == 0 {
                let b = copy_string(body.as_str());
                (RemarkState { attempt: st.attempt, best_body: body, restore_html: st.restore_html }, RemarkAction::Finish(b))
            } else if emphasis_issues(&issues) == issues.len() && count_emphasized_segments(de.body.as_str()) >= 2 {
                (RemarkState { attempt: st.attempt, best_body: body, restore_html: st.restore_html }, RemarkAction::Repair)
            } else {
                go_on_exec(de, glossary_section, tol, ignore, st.attempt, body)
            }
        },
        ModelEvent::Repaired(None) => go_on_exec(de, glossary_section, tol, ignore, st.attempt, st.best_body),
        ModelEvent::Repaired(Some(rep)) => {
            let ri = issues_of(de, rep.as_str(), tol, ignore);
            if ri.len() == 0 {
                let b = copy_string(rep.as_str());
                (RemarkState { attempt: st.attempt, best_body: rep, restore_html: st.restore_html }, RemarkAction::Finish(b))
            } else {
                let bi = issues_of(de, st.best_body.as_str(), tol, ignore);
                let next = if emphasis_issues(&ri) < emphasis_issues(&bi) {
                    rep
                } else {
                    st.best_body
                };
                go_on_exec(de, glossary_section, tol, ignore, st.attempt, next)
            }
        },
    }
}

// ---------------------------------------------------------------------------
// A document: what to do with the next remark
// ---------------------------------------------------------------------------

/// What to do with the next remark of a document being translated.
pub enum NextRemark {
    /// Write the German remark as it is (an empty body, or on the skip list).
    Verbatim,
    /// Write this English body, taken from a translated sibling.
    Reuse(String),
    /// Translate the remarks from this one up to (not including) the given index
    /// together.
    Translate(usize),
}

/// The next step for a remark, as text.
pub enum NextView {
    Verbatim,
    Reuse(Seq<char>),
    Translate(int),
}

pub open spec fn next_view(n: NextRemark) -> NextView {
    match n {
        NextRemark::Verbatim => NextView::Verbatim,
        NextRemark::Reuse(b) => NextView::Reuse(b@),
        NextRemark::Translate(e) => NextView::Translate(e as int),
    }
}

/// The entries of an optional reuse map.
pub open spec fn reuse_view(m: Option<ReuseMap>) -> Option<Seq<(Seq<char>, Seq<char>, Seq<char>)>> {
    match m {
        Some(x) => Some(x.spec_entries()),
        None => None,
    }
}

/// The English body a reuse map gives for a German body.
pub open spec fn reuse_lookup(m: Option<Seq<(Seq<char>, Seq<char>, Seq<char>)>>, body: Seq<char>) -> Option<
    Seq<char>,
> {
    match m {
        None => None,
        Some(es) => if spec_word_key(body, 6).len() == 0 {
            None
        } else {
            first_similar(es, spec_word_key(body, 6), body)
        },
    }
}

/// Whether each body can be taken from the reuse map.
pub open spec fn reusable_flags(m: Option<Seq<(Seq<char>, Seq<char>, Seq<char>)>>, bodies: Seq<Seq<char>>) -> Seq<
    bool,
> {
    bodies.map_values(|b: Seq<char>| reuse_lookup(m, b) is Some)
}

/// The bodies of remarks.
pub open spec fn bodies_of(rs: Seq<(Seq<char>, Seq<char>)>) -> Seq<Seq<char>> {
    rs.map_values(|r: (Seq<char>, Seq<char>)| r.1)
}

/// What to do with remark `i`: empty remarks and remarks on the skip list are written
/// as they are; a remark the sibling map knows takes the sibling's translation;
/// otherwise it is translated together with the following remarks that fit the batch
/// budget (see `batch_end_from`).
pub open spec fn spec_next_remark(
    rs: Seq<(Seq<char>, Seq<char>)>,
    i: int,
    skip: Seq<Seq<char>>,
    file: Seq<char>,
    m: Option<Seq<(Seq<char>, Seq<char>, Seq<char>)>>,
    max: nat,
) -> NextView {
    let body = rs[i].1;
    if trim(body).len() == 0 {
        NextView::Verbatim
    } else if skip.contains(file + ":"@ + spec_anchor_from_doc_heading(rs[i].0)) {
        NextView::Verbatim
    } else if reuse_lookup(m, body) is Some {
        NextView::Reuse(reuse_lookup(m, body).unwrap())
    } else {
        NextView::Translate(
            batch_end_from(bodies_of(rs), reusable_flags(m, bodies_of(rs)), i, max, i, 0),
        )
    }
}

fn lookup_opt<'a>(m: &'a Option<ReuseMap>, body: &str) -> (r: Option<&'a str>)
    ensures
        match r {
            Some(x) => reuse_lookup(reuse_view(*m), body@) == Some(x@),
            None => reuse_lookup(reuse_view(*m), body@) is None,
        },
{
    match m {
        Some(map) => map.lookup(body),
        None => None,
    }
}

/// The bodies of remarks, and whether the reuse map knows each.
fn bodies_and_flags(remarks: &[Remark], m: &Option<ReuseMap>) -> (r: (Vec<String>, Vec<bool>))
    ensures
        string_views(r.0@) == bodies_of(remark_views(remarks@)),
        r.1@ == reusable_flags(reuse_view(*m), bodies_of(remark_views(remarks@))),
{
    let ghost bv = bodies_of(remark_views(remarks@));
    let mut bodies: Vec<String> = Vec::new();
    let mut flags: Vec<bool> = Vec::new();
    let mut k: usize = 0;
    while k < remarks.len()
        invariant
            k <= remarks.len(),
            bv == bodies_of(remark_views(remarks@)),
            string_views(bodies@) == bv.take(k as int),
            flags@ == reusable_flags(reuse_view(*m), bv.take(k as int)),
        decreases remarks.len() - k,
    {
        let b = copy_string(remarks[k].body.as_str());
        let f = lookup_opt(m, remarks[k].body.as_str()).is_some();
        let ghost sb = string_views(bodies@);
        bodies.push(b);
        flags.push(f);
        assert(string_views(bodies@) =~= sb.push(b@));
        assert(bv.take(k + 1) =~= bv.take(k as int).push(bv[k as int]));
        assert(flags@ =~= reusable_flags(reuse_view(*m), bv.take(k + 1)));
        k += 1;
    }
    assert(bv.take(remarks.len() as int) =~= bv);
    (bodies, flags)
}

/// What to do with remark `i` of a document being translated.
pub fn next_remark_action(
    remarks: &[Remark],
    i: usize,
    skip: &[String],
    filename: &str,
    reuse: &Option<ReuseMap>,
    max_batch: usize,
) -> (r: NextRemark)
    requires
        i < remarks.len(),
    ensures
        next_view(r) == spec_next_remark(
            remark_views(remarks@),
            i as int,
            string_views(skip@),
            filename@,
            reuse_view(*reuse),
            max_batch as nat,
        ),
        r matches NextRemark::Translate(e) ==> i < e <= remarks.len(),
{
    let ghost rv = remark_views(remarks@);
    let body = &remarks[i].body;
    if trim_exec(&chars_of(body.as_str())).len() == 0 {
        return NextRemark::Verbatim;
    }
    let rid = anchor_from_doc_heading(remarks[i].heading.as_str());
    if should_skip_remark(skip, filename, rid.as_str()) {
        return NextRemark::Verbatim;
    }
    match lookup_opt(reuse, body.as_str()) {
        Some(en) => NextRemark::Reuse(copy_string(en)),
        None => {
            let (bodies, flags) = bodies_and_flags(remarks, reuse);
            let e = batch_end(&bodies, &flags, i, max_batch);
            proof {
                assert(bodies_of(rv)[i as int] == body@);
                crate::translate::batch::lemma_batch_end_advances(bodies_of(rv), reusable_flags(reuse_view(*reuse), bodies_of(rv)), i as int, max_batch as nat);
            }
            NextRemark::Translate(e)
        },
    }
}

// ---------------------------------------------------------------------------
// A document: resuming, passes over the finished translation, changed remarks
// ---------------------------------------------------------------------------

/// The indices, among the first `n` remark pairs, of the remarks not on the skip list
/// whose English body has issues.
pub open spec fn broken_fold(
    file: Seq<char>,
    de: Seq<(Seq<char>, Seq<char>)>,
    en: Seq<(Seq<char>, Seq<char>)>,
    skip: Seq<Seq<char>>,
    tol: nat,
    ignored: Seq<Seq<char>>,
    n: int,
) -> Seq<int>
    decreases n,
{
    if n <= 0 {
        Seq::empty()
    } else {
        let rest = broken_fold(file, de, en, skip, tol, ignored, n - 1);
        let i = n - 1;
        if skip.contains(file + ":"@ + spec_anchor_from_doc_heading(de[i].0)) {
            rest
        } else if body_issues(de[i].1, en[i].1, tol, ignored).len() > 0 {
            rest.push(i)
        } else {
            rest
        }
    }
}

/// The smaller of two lengths.
pub open spec fn pair_count(a: nat, b: nat) -> int {
    if a <= b {
        a as int
    } else {
        b as int
    }
}

/// The remarks of a translated document to translate again: taking the German and
/// English remarks pair by pair, those not on the skip list whose English body has
/// issues.
pub fn remarks_to_fix(
    filename: &str,
    de_remarks: &[Remark],
    en_remarks: &[Remark],
    skip: &[String],
    tol: usize,
    ignore: &[String],
) -> (r: Vec<usize>)
    ensures
        r@.map_values(|k: usize| k as int) == broken_fold(
            filename@,
            remark_views(de_remarks@),
            remark_views(en_remarks@),
            string_views(skip@),
            tol as nat,
            string_views(ignore@),
            pair_count(de_remarks.len() as nat, en_remarks.len() as nat),
        ),
{
    let ghost dv = remark_views(de_remarks@);
    let ghost ev = remark_views(en_remarks@);
    let n = if de_remarks.len() <= en_remarks.len() {
        de_remarks.len()
    } else {
        en_remarks.len()
    };
    let mut out: Vec<usize> = Vec::new();
    let mut i: usize = 0;
    while i < n
        invariant
            i <= n,
            n <= de_remarks.len(),
            n <= en_remarks.len(),
            n as int == pair_count(de_remarks.len() as nat, en_remarks.len() as nat),
            dv == remark_views(de_remarks@),
            ev == remark_views(en_remarks@),
            out@.map_values(|k: usize| k as int) == broken_fold(
                filename@,
                dv,
                ev,
                string_views(skip@),
                tol as nat,
                string_views(ignore@),
                i as int,
            ),
        decreases n - i,
    {
        assert(dv[i as int] == (de_remarks@[i as int].heading@, de_remarks@[i as int].body@));
        assert(ev[i as int].1 == en_remarks@[i as int].body@);
        let rid = anchor_from_doc_heading(de_remarks[i].heading.as_str());
        if !should_skip_remark(skip, filename, rid.as_str()) {
            let issues = issues_of(&de_remarks[i], en_remarks[i].body.as_str(), tol, ignore);
            if issues.len() > 0 {
                let ghost before = out@;
                out.push(i);
                assert(out@.map_values(|k: usize| k as int) =~= before.map_values(|k: usize| k as int).push(i as int));
            }
        }
        i += 1;
    }
    out
}

/// Where a document whose partial translation holds the remarks `done` resumes: after
/// those remarks, with the non-blank bodies among the last ten of them as context.
pub open spec fn spec_resume_point(done: Seq<(Seq<char>, Seq<char>)>) -> (int, Seq<Seq<char>>) {
    let start = if done.len() > 10 {
        done.len() - 10
    } else {
        0
    };
    (
        done.len() as int,
        bodies_of(done.subrange(start, done.len() as int)).filter(|b: Seq<char>| trim(b).len() > 0),
    )
}

/// The number of remarks already written to a partial translation, and the context
/// to resume with.
pub fn resume_point(done: &[Remark]) -> (r: (usize, Vec<String>))
    ensures
        (r.0 as int, string_views(r.1@)) == spec_resume_point(remark_views(done@)),
{
    let ghost dv = remark_views(done@);
    let start: usize = if done.len() > 10 {
        done.len() - 10
    } else {
        0
    };
    let ghost tail = bodies_of(dv.subrange(start as int, done.len() as int));
    let mut ctx: Vec<String> = Vec::new();
    let mut k: usize = start;
    while k < done.len()
        invariant
            start <= k <= done.len(),
            dv == remark_views(done@),
            tail == bodies_of(dv.subrange(start as int, done.len() as int)),
            string_views(ctx@) == tail.take(k - start).filter(|b: Seq<char>| trim(b).len() > 0),
        decreases done.len() - k,
    {
        let ghost before = string_views(ctx@);
        assert(tail.take(k - start + 1).drop_last() =~= tail.take(k - start));
        assert(tail[k - start] == done@[k as int].body@);
        reveal(Seq::filter);
        if trim_exec(&chars_of(done[k].body.as_str())).len() > 0 {
            let b = copy_string(done[k].body.as_str());
            ctx.push(b);
            assert(string_views(ctx@) =~= before.push(b@));
        }
        k += 1;
    }
    assert(tail.take(done.len() - start) =~= tail);
    (done.len(), ctx)
}

/// The changed remarks (index and anchor) to translate again: those with a German and
/// an English remark at their index that are not on the skip list.
pub open spec fn changed_fold(
    changed: Seq<(int, Seq<char>)>,
    de_count: nat,
    en_count: nat,
    skip: Seq<Seq<char>>,
    file: Seq<char>,
) -> Seq<(int, Seq<char>)>
    decreases changed.len(),
{
    if changed.len() == 0 {
        Seq::empty()
    } else {
        let rest = changed_fold(changed.drop_last(), de_count, en_count, skip, file);
        let (idx, a) = changed.last();
        if idx < de_count && idx < en_count && !skip.contains(file + ":"@ + a) {
            rest.push((idx, a))
        } else {
            rest
        }
    }
}

/// The changed remarks to translate again.
pub fn changed_to_translate(
    changed: &[(usize, String)],
    de_count: usize,
    en_count: usize,
    skip: &[String],
    filename: &str,
) -> (r: Vec<(usize, String)>)
    ensures
        crate::translate::common::change_views(r@) == changed_fold(
            crate::translate::common::change_views(changed@),
            de_count as nat,
            en_count as nat,
            string_views(skip@),
            filename@,
        ),
{
    let ghost cv = crate::translate::common::change_views(changed@);
    let mut out: Vec<(usize, String)> = Vec::new();
    let mut k: usize = 0;
    while k < changed.len()
        invariant
            k <= changed.len(),
            cv == crate::translate::common::change_views(changed@),
            crate::translate::common::change_views(out@) == changed_fold(
                cv.take(k as int),
                de_count as nat,
                en_count as nat,
                string_views(skip@),
                filename@,
            ),
        decreases changed.len() - k,
    {
        assert(cv.take(k + 1).drop_last() =~= cv.take(k as int));
        assert(cv.take(k + 1).last() == (changed@[k as int].0 as int, changed@[k as int].1@));
        let idx = changed[k].0;
        if idx < de_count && idx < en_count && !should_skip_remark(skip, filename, changed[k].1.as_str()) {
            let ghost before = crate::translate::common::change_views(out@);
            let a = copy_string(changed[k].1.as_str());
            out.push((idx, a));
            assert(crate::translate::common::change_views(out@) =~= before.push((idx as int, a@)));
        }
        k += 1;
    }
    assert(cv.take(changed.len() as int) =~= cv);
    out
}

// ---------------------------------------------------------------------------
// Copying updated headings into a translation
// ---------------------------------------------------------------------------

/// The remarks of a translation with the German headings copied in, position by
/// position, where the anchors agree and the headings differ, and the number of
/// headings copied.
pub open spec fn migrate_fold(
    de: Seq<(Seq<char>, Seq<char>)>,
    en: Seq<(Seq<char>, Seq<char>)>,
    n: int,
) -> (Seq<(Seq<char>, Seq<char>)>, nat)
    decreases n,
{
    if n <= 0 {
        (Seq::empty(), 0)
    } else {
        let (rs, c) = migrate_fold(de, en, n - 1);
        let (dh, _) = de[n - 1];
        let (eh, eb) = en[n - 1];
        if spec_anchor_from_doc_heading(dh) == spec_anchor_from_doc_heading(eh) && dh != eh {
            (rs.push((dh, eb)), c + 1)
        } else {
            (rs.push((eh, eb)), c)
        }
    }
}

/// A translation with the headings of its German original copied in: `None` when the
/// two documents have different numbers of remarks or no heading changes; otherwise
/// the German preamble followed by the remarks, each with the German heading where
/// the anchors agree and the English body, and the number of headings changed.
pub open spec fn spec_migrate_document(de_content: Seq<char>, en_content: Seq<char>) -> Option<(Seq<char>, nat)> {
    let (dp, dr) = spec_parse_document(de_content);
    let er = spec_parse_document(en_content).1;
    if dr.len() != er.len() {
        None
    } else {
        let (rs, c) = migrate_fold(dr, er, dr.len() as int);
        if c == 0 {
            None
        } else {
            Some((document_text(dp, rs), c))
        }
    }
}

/// Copy updated headings from a German document into its translation, keeping the
/// translated bodies.
pub fn migrate_document(de_content: &str, en_content: &str) -> (r: Option<(String, usize)>)
    ensures
        match r {
            Some((t, c)) => spec_migrate_document(de_content@, en_content@) == Some((t@, c as nat)),
            None => spec_migrate_document(de_content@, en_content@) is None,
        },
{
    let (dp, dr) = parse_document(de_content);
    let (_ep, er) = parse_document(en_content);
    if dr.len() != er.len() {
        return None;
    }
    let ghost dv = remark_views(dr@);
    let ghost ev = remark_views(er@);
    let mut out: Vec<Remark> = Vec::new();
    let mut count: usize = 0;
    let mut i: usize = 0;
    while i < dr.len()
        invariant
            i <= dr.len() == er.len(),
            dv == remark_views(dr@),
            ev == remark_views(er@),
            count <= i,
            (remark_views(out@), count as nat) == migrate_fold(dv, ev, i as int),
        decreases dr.len() - i,
    {
        assert(dv[i as int] == (dr@[i as int].heading@, dr@[i as int].body@));
        assert(ev[i as int] == (er@[i as int].heading@, er@[i as int].body@));
        let da = anchor_from_doc_heading(dr[i].heading.as_str());
        let ea = anchor_from_doc_heading(er[i].heading.as_str());
        let same = crate::text::chars_eq(&chars_of(da.as_str()), &chars_of(ea.as_str()));
        let differ = !crate::text::chars_eq(&chars_of(dr[i].heading.as_str()), &chars_of(er[i].heading.as_str()));
        let ghost before = remark_views(out@);
        let r = if same && differ {
            count += 1;
            Remark { heading: copy_string(dr[i].heading.as_str()), body: copy_string(er[i].body.as_str()) }
        } else {
            Remark { heading: copy_string(er[i].heading.as_str()), body: copy_string(er[i].body.as_str()) }
        };
        out.push(r);
        assert(remark_views(out@) =~= before.push((r.heading@, r.body@)));
        i += 1;
    }
    if count == 0 {
        return None;
    }
    let text = render_document(dp.as_str(), &out);
    Some((text, count))
}

// ---------------------------------------------------------------------------
// Works
// ---------------------------------------------------------------------------

/// Whether a work can be assembled: it has source documents and each of them is among
/// the translated files.
pub open spec fn spec_work_ready(sources: Seq<Seq<char>>, translated: Seq<Seq<char>>) -> bool {
    sources.len() > 0 && forall|k: int| 0 <= k < sources.len() ==> translated.contains(#[trigger] sources[k])
}

/// Whether a work can be assembled from the translated files.
pub fn work_ready(sources: &[String], translated: &[String]) -> (r: bool)
    ensures
        r == spec_work_ready(string_views(sources@), string_views(translated@)),
{
    if sources.len() == 0 {
        return false;
    }
    let ghost sv = string_views(sources@);
    let mut k: usize = 0;
    while k < sources.len()
        invariant
            k <= sources.len(),
            sv == string_views(sources@),
            forall|m: int| 0 <= m < k ==> string_views(translated@).contains(#[trigger] sv[m]),
        decreases sources.len() - k,
    {
        if !strings_contain(translated, &chars_of(sources[k].as_str())) {
            assert(sv[k as int] == sources@[k as int]@);
            return false;
        }
        assert(sv[k as int] == sources@[k as int]@);
        k += 1;
    }
    true
}

// ---------------------------------------------------------------------------
// Passes over a translated document
// ---------------------------------------------------------------------------

/// The remarks `en` after the retranslations `fixes` (index, heading, body): a remark
/// whose new body differs from its current one takes the new heading and body; and
/// whether any did.
pub open spec fn fixes_fold(en: Seq<(Seq<char>, Seq<char>)>, fixes: Seq<(int, Seq<char>, Seq<char>)>) -> (
    Seq<(Seq<char>, Seq<char>)>,
    bool,
)
    decreases fixes.len(),
{
    if fixes.len() == 0 {
        (en, false)
    } else {
        let (rs, changed) = fixes_fold(en, fixes.drop_last());
        let (i, h, b) = fixes.last();
        if 0 <= i < rs.len() && rs[i].1 != b {
            (rs.update(i, (h, b)), true)
        } else {
            (rs, changed)
        }
    }
}

pub open spec fn fix_views(v: Seq<(usize, String, String)>) -> Seq<(int, Seq<char>, Seq<char>)> {
    v.map_values(|f: (usize, String, String)| (f.0 as int, f.1@, f.2@))
}

/// Apply retranslated bodies to the remarks of a document: a remark takes the new
/// heading and body when the body differs from its current one. Returns the remarks and
/// whether any changed (and the document needs writing).
pub fn apply_fixes(en_remarks: Vec<Remark>, fixes: &[(usize, String, String)]) -> (r: (Vec<Remark>, bool))
    ensures
        (remark_views(r.0@), r.1) == fixes_fold(remark_views(en_remarks@), fix_views(fixes@)),
{
    let ghost fv = fix_views(fixes@);
    let mut rs = en_remarks;
    let mut changed = false;
    let mut k: usize = 0;
    while k < fixes.len()
        invariant
            k <= fixes.len(),
            fv == fix_views(fixes@),
            (remark_views(rs@), changed) == fixes_fold(remark_views(en_remarks@), fv.take(k as int)),
        decreases fixes.len() - k,
    {
        assert(fv.take(k + 1).drop_last() =~= fv.take(k as int));
        assert(fv.take(k + 1).last() == (fixes@[k as int].0 as int, fixes@[k as int].1@, fixes@[k as int].2@));
        let i = fixes[k].0;
        if i < rs.len() {
            assert(remark_views(rs@)[i as int] == (rs@[i as int].heading@, rs@[i as int].body@));
            let same = crate::text::chars_eq(&chars_of(rs[i].body.as_str()), &chars_of(fixes[k].2.as_str()));
            if !same {
                let ghost before = remark_views(rs@);
                let r = Remark { heading: copy_string(fixes[k].1.as_str()), body: copy_string(fixes[k].2.as_str()) };
                rs.set(i, r);
                changed = true;
                assert(remark_views(rs@) =~= before.update(i as int, (r.heading@, r.body@)));
            }
        }
        k += 1;
    }
    assert(fv.take(fixes.len() as int) =~= fv);
    (rs, changed)
}

/// The context window after adding an entry: the last ten entries.
pub open spec fn spec_trim_window(window: Seq<Seq<char>>) -> Seq<Seq<char>> {
    if window.len() > 10 {
        window.skip(window.len() - 10)
    } else {
        window
    }
}

/// Keep the ten most recent context entries.
pub fn trim_window(window: &[String]) -> (r: Vec<String>)
    ensures
        string_views(r@) == spec_trim_window(string_views(window@)),
{
    let ghost wv = string_views(window@);
    let start: usize = if window.len() > 10 {
        window.len() - 10
    } else {
        0
    };
    let mut out: Vec<String> = Vec::new();
    let mut k: usize = start;
    while k < window.len()
        invariant
            start <= k <= window.len(),
            wv == string_views(window@),
            string_views(out@) == wv.subrange(start as int, k as int),
        decreases window.len() - k,
    {
        let ghost before = string_views(out@);
        let x = copy_string(window[k].as_str());
        out.push(x);
        assert(wv[k as int] == x@);
        assert(string_views(out@) =~= before.push(x@));
        assert(wv.subrange(start as int, k + 1) =~= wv.subrange(start as int, k as int).push(wv[k as int]));
        k += 1;
    }
    assert(wv.subrange(start as int, window.len() as int) =~= spec_trim_window(wv));
    out
}

/// The English body after a segment-by-segment emphasis repair: the segments, each
/// replaced where a repair came, joined by spaces; `None` when no segment was repaired.
pub open spec fn spec_assemble_repair(segments: Seq<Seq<char>>, repaired: Seq<Option<Seq<char>>>) -> Option<
    Seq<char>,
> {
    if exists|k: int| 0 <= k < repaired.len() && #[trigger] repaired[k] is Some {
        Some(
            crate::text::join(
                Seq::new(
                    segments.len(),
                    |k: int|
                        if k < repaired.len() && repaired[k] is Some {
                            repaired[k].unwrap()
                        } else {
                            segments[k]
                        },
                ),
                " "@,
            ),
        )
    } else {
        None
    }
}

pub open spec fn opt_views(v: Seq<Option<String>>) -> Seq<Option<Seq<char>>> {
    v.map_values(|o: Option<String>| match o {
        Some(s) => Some(s@),
        None => None,
    })
}

/// Put the English segments back together after a segment-by-segment emphasis repair.
pub fn assemble_repair(segments: &[String], repaired: &[Option<String>]) -> (r: Option<String>)
    ensures
        match r {
            Some(t) => spec_assemble_repair(string_views(segments@), opt_views(repaired@)) == Some(t@),
            None => spec_assemble_repair(string_views(segments@), opt_views(repaired@)) is None,
        },
{
    let ghost sv = string_views(segments@);
    let ghost ov = opt_views(repaired@);
    let ghost pick = Seq::new(
        sv.len(),
        |k: int|
            if k < ov.len() && ov[k] is Some {
                ov[k].unwrap()
            } else {
                sv[k]
            },
    );
    let mut parts: Vec<Vec<char>> = Vec::new();
    let mut any = false;
    let mut k: usize = 0;
    while k < segments.len()
        invariant
            k <= segments.len(),
            sv == string_views(segments@),
            ov == opt_views(repaired@),
            pick.len() == sv.len(),
            forall|m: int| 0 <= m < sv.len() ==> #[trigger] pick[m] == (if m < ov.len() && ov[m] is Some {
                ov[m].unwrap()
            } else {
                sv[m]
            }),
            views(parts@) == pick.take(k as int),
            any == exists|m: int| 0 <= m < k && m < ov.len() && #[trigger] ov[m] is Some,
        decreases segments.len() - k,
    {
        let ghost before = views(parts@);
        let p = if k < repaired.len() {
            match &repaired[k] {
                Some(t) => {
                    any = true;
                    chars_of(t.as_str())
                },
                None => chars_of(segments[k].as_str()),
            }
        } else {
            chars_of(segments[k].as_str())
        };
        proof {
            if k < ov.len() {
                assert(ov[k as int] == match repaired@[k as int] {
                    Some(s) => Some(s@),
                    None => None,
                });
            }
        }
        assert(sv[k as int] == segments@[k as int]@);
        assert(pick[k as int] == p@);
        parts.push(p);
        assert(views(parts@) =~= before.push(p@));
        assert(pick.take(k + 1) =~= pick.take(k as int).push(pick[k as int]));
        k += 1;
    }
    assert(pick.take(segments.len() as int) =~= pick);
    let mut later = false;
    let mut m: usize = if segments.len() < repaired.len() {
        segments.len()
    } else {
        repaired.len()
    };
    let ghost m0 = m;
    while m < repaired.len()
        invariant
            m0 <= m <= repaired.len(),
            m0 == segments.len() || m0 == repaired.len(),
            m0 <= segments.len(),
            ov == opt_views(repaired@),
            later == exists|q: int| m0 <= q < m && #[trigger] ov[q] is Some,
        decreases repaired.len() - m,
    {
        if repaired[m].is_some() {
            later = true;
        }
        assert(ov[m as int] is Some == repaired@[m as int] is Some);
        m += 1;
    }
    if any || later {
        Some(string_of(&crate::text::join_exec(&parts, &chars_of(" "))))
    } else {
        None
    }
}

} // verus!
