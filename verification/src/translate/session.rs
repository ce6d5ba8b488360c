//! The decisions of a translation session that surround the calls to a translation
//! service: how much context to send, what to ask on a retry, how to post-process a
//! reply, which remarks need another pass, and how a document is written out.
use vstd::prelude::*;
use crate::covers::parse::byte_len;
use crate::markup::{strip_all, Pat};
use crate::text::{
    chars_of, contains, contains_exec, count_char, count_char_exec, decimal, join, join_exec,
    push_all, push_decimal, push_str, string_of, views,
};
use crate::translate::common::{
    restore_fold, restore_math, spec_emphasis_from_html, emphasis_from_html,
    spec_fix_emphasis_markers, fix_emphasis_markers, string_views, Remark, remark_views,
};
use crate::translate::verify::{html_tags, math_blocks, Issue, issue_views, IssueView};

verus! {

/// How often a remark is sent again after a translation with issues.
pub const MAX_REMARK_RETRIES: usize = 2;

/// How many passes re-translate the broken remarks of a document.
pub const MAX_DOC_RETRIES: usize = 2;

/// The settings of a consistency check.
pub struct CheckArgs {
    pub input: String,
    pub translated: String,
    pub emphasis_tolerance: usize,
}

/// The settings of a repair run with the DeepL service.
pub struct FixDeeplArgs {
    pub input: String,
    pub translated: String,
    pub deepl_key: String,
    pub glossary: Option<String>,
    pub verbose: bool,
    pub emphasis_tolerance: usize,
}

// ---------------------------------------------------------------------------
// Context
// ---------------------------------------------------------------------------

/// How many entries, counted from the end of `lens`, fit into `max` together with
/// `used`, starting after the first `k`.
pub open spec fn fitting(lens: Seq<nat>, max: nat, k: int, used: nat) -> int
    decreases lens.len() - k,
{
    if k < 0 || k >= lens.len() {
        k
    } else if used + lens[lens.len() - 1 - k] > max {
        k
    } else {
        fitting(lens, max, k + 1, used + lens[lens.len() - 1 - k])
    }
}

/// The most recent context entries whose lengths in bytes add up to at most `max`, in
/// their original order.
pub open spec fn spec_adaptive_context(window: Seq<Seq<char>>, max: nat) -> Seq<Seq<char>> {
    let m = fitting(window.map_values(|w: Seq<char>| byte_len(w)), max, 0, 0);
    window.skip(window.len() - m)
}

/// The bytes of the last `m` lengths.
pub open spec fn tail_total(lens: Seq<nat>, m: int) -> nat
    decreases lens.len(),
{
    if m <= 0 || lens.len() == 0 {
        0
    } else {
        lens.last() + tail_total(lens.drop_last(), m - 1)
    }
}

/// The total length in bytes of some texts.
pub open spec fn total_bytes(ws: Seq<Seq<char>>) -> nat
    decreases ws.len(),
{
    if ws.len() == 0 {
        0
    } else {
        byte_len(ws.last()) + total_bytes(ws.drop_last())
    }
}

proof fn lemma_tail_total_step(lens: Seq<nat>, k: int)
    requires
        0 <= k < lens.len(),
    ensures
        tail_total(lens, k + 1) == tail_total(lens, k) + lens[lens.len() - 1 - k],
    decreases lens.len(),
{
    let d = lens.drop_last();
    if k > 0 {
        lemma_tail_total_step(d, k - 1);
        assert(d[d.len() - 1 - (k - 1)] == lens[lens.len() - 1 - k]);
        assert(tail_total(lens, k + 1) == lens.last() + tail_total(d, k));
        assert(tail_total(lens, k) == lens.last() + tail_total(d, k - 1));
    } else {
        assert(tail_total(d, 0) == 0);
        assert(tail_total(lens, 1) == lens.last() + tail_total(d, 0));
    }
}

proof fn lemma_fitting(lens: Seq<nat>, max: nat, k: int, used: nat)
    requires
        0 <= k <= lens.len(),
        used == tail_total(lens, k),
        used <= max,
    ensures
        k <= fitting(lens, max, k, used) <= lens.len(),
        tail_total(lens, fitting(lens, max, k, used)) <= max,
        fitting(lens, max, k, used) < lens.len() ==> tail_total(lens, fitting(lens, max, k, used)) + lens[lens.len() - 1
            - fitting(lens, max, k, used)] > max,
    decreases lens.len() - k,
{
    if k < lens.len() && used + lens[lens.len() - 1 - k] <= max {
        lemma_tail_total_step(lens, k);
        lemma_fitting(lens, max, k + 1, used + lens[lens.len() - 1 - k]);
    }
}

proof fn lemma_total_tail(w: Seq<Seq<char>>, m: int)
    requires
        0 <= m <= w.len(),
    ensures
        total_bytes(w.skip(w.len() - m)) == tail_total(w.map_values(|x: Seq<char>| byte_len(x)), m),
    decreases w.len(),
{
    let lens = w.map_values(|x: Seq<char>| byte_len(x));
    if m == 0 {
        assert(w.skip(w.len() - m) =~= Seq::<Seq<char>>::empty());
    } else {
        let d = w.drop_last();
        lemma_total_tail(d, m - 1);
        assert(w.skip(w.len() - m).drop_last() =~= d.skip(d.len() - (m - 1)));
        assert(w.skip(w.len() - m).last() == w.last());
        assert(lens.drop_last() =~= d.map_values(|x: Seq<char>| byte_len(x)));
    }
}

/// The context fits the budget and takes as much as fits: its texts hold at most
/// `max` bytes together, and when an older entry is left out, taking it too would go
/// over the budget.
pub proof fn lemma_context_within_budget(window: Seq<Seq<char>>, max: nat)
    ensures
        total_bytes(spec_adaptive_context(window, max)) <= max,
        spec_adaptive_context(window, max).len() < window.len() ==> total_bytes(spec_adaptive_context(window, max))
            + byte_len(window[window.len() - 1 - spec_adaptive_context(window, max).len()]) > max,
{
    let lens = window.map_values(|x: Seq<char>| byte_len(x));
    lemma_fitting(lens, max, 0, 0);
    let m = fitting(lens, max, 0, 0);
    lemma_total_tail(window, m);
    assert(spec_adaptive_context(window, max).len() == m);
}

/// Collect context entries that fit within the character budget, most recent first,
/// returned in their original order.
pub fn adaptive_context(context_window: &[String], max_chars: usize) -> (r: Vec<String>)
    ensures
        string_views(r@) == spec_adaptive_context(string_views(context_window@), max_chars as nat),
{
    let ghost w = string_views(context_window@);
    let ghost lens = w.map_values(|x: Seq<char>| byte_len(x));
    let n = context_window.len();
    let mut used: u128 = 0;
    let mut k: usize = 0;
    while k < n
        invariant
            k <= n == context_window.len(),
            w == string_views(context_window@),
            lens == w.map_values(|x: Seq<char>| byte_len(x)),
            used <= max_chars,
            w.len() == n,
            lens.len() == n,
            fitting(lens, max_chars as nat, 0, 0) == fitting(lens, max_chars as nat, k as int, used as nat),
        ensures
            k <= n,
            fitting(lens, max_chars as nat, 0, 0) == k as int,
        decreases n - k,
    {
        let len = context_window[n - 1 - k].as_str().len();
        assert(lens[n - 1 - k] == byte_len(context_window@[n - 1 - k]@));
        if used + len as u128 > max_chars as u128 {
            break;
        }
        used = used + len as u128;
        k += 1;
    }
    let mut out: Vec<String> = Vec::new();
    let mut j: usize = n - k;
    while j < n
        invariant
            k <= n,
            n - k <= j <= n == context_window.len(),
            w == string_views(context_window@),
            w.len() == n,
            string_views(out@) == w.subrange(n - k, j as int),
        decreases n - j,
    {
        let s = string_of(&chars_of(context_window[j].as_str()));
        let ghost before = out@;
        out.push(s);
        assert(string_views(out@) =~= string_views(before).push(s@));
        assert(w[j as int] == s@);
        assert(string_views(out@) =~= w.subrange(n - k, j + 1));
        j += 1;
    }
    assert(w.subrange(n - k, n as int) =~= w.skip(w.len() - k));
    out
}

// ---------------------------------------------------------------------------
// Retries
// ---------------------------------------------------------------------------

/// What to tell the model about one issue.
pub open spec fn instruction(check: Seq<char>, desc: Seq<char>, de: Seq<char>) -> Seq<char> {
    if check == "structure"@ {
        if contains(desc, "Math block"@) {
            let blocks = math_blocks(de);
            if blocks.len() == 0 {
                "Copy all <math>...</math> blocks from the original verbatim."@
            } else {
                "Your translation MUST contain these exact math blocks, copied verbatim:\n"@ + join(blocks, "\n"@)
            }
        } else if contains(desc, "HTML tags"@) {
            "Your translation MUST contain these exact HTML tags, copied verbatim: "@ + join(html_tags(de), ", "@)
        } else if contains(desc, "Image"@) {
            "Copy all image references (![](path)) from the original verbatim."@
        } else {
            desc
        }
    } else if check == "emphasis"@ {
        if contains(desc, "Underscore"@) {
            "The original has exactly "@ + decimal(count_char(de, '_'))
                + " underscore (_) characters for emphasis. Your translation must also have exactly "@
                + decimal(count_char(de, '_')) + " underscores."@
        } else {
            "The original has exactly "@ + decimal(count_char(de, '*'))
                + " asterisk (*) characters. Your translation must also have exactly "@ + decimal(
                count_char(de, '*'),
            ) + " asterisks."@
        }
    } else if check == "quotes"@ {
        QUOTES_INSTRUCTION@
    } else if check == "length"@ {
        if contains(desc, "truncation"@) {
            TRUNCATION_INSTRUCTION@
        } else {
            HALLUCINATION_INSTRUCTION@
        }
    } else if check == "untranslated"@ {
        UNTRANSLATED_INSTRUCTION@
    } else {
        desc
    }
}

/// The instruction for straight quotes.
pub const QUOTES_INSTRUCTION: &'static str = "Use English curly quotes \u{201c}...\u{201d} for quotations. NEVER use straight ASCII double quotes (\").";

/// The instruction for a translation that is too short.
pub const TRUNCATION_INSTRUCTION: &'static str = "Translate the ENTIRE text from beginning to end. Do not skip, summarize, or omit any sentences.";

/// The instruction for a translation that is too long.
pub const HALLUCINATION_INSTRUCTION: &'static str = "Translate only what is in the original. Do not add extra content, explanations, or commentary.";

/// The instruction for German left in the translation.
pub const UNTRANSLATED_INSTRUCTION: &'static str = "Translate ALL German words to English. Do not leave any German words untranslated (except proper names).";

/// The distinct instructions for the issues, in order of first appearance.
pub open spec fn instructions_fold(issues: Seq<IssueView>, de: Seq<char>) -> Seq<Seq<char>>
    decreases issues.len(),
{
    if issues.len() == 0 {
        Seq::empty()
    } else {
        let prev = instructions_fold(issues.drop_last(), de);
        let i = instruction(issues.last().2, issues.last().3, de);
        if prev.contains(i) {
            prev
        } else {
            prev.push(i)
        }
    }
}

/// The instructions for a retry, one per line.
pub open spec fn spec_fix_instructions(issues: Seq<IssueView>, de: Seq<char>) -> Seq<char> {
    join(instructions_fold(issues, de), "\n"@)
}


fn instruction_exec(check: &str, desc: &str, de: &str) -> (r: Vec<char>)
    ensures
        r@ == instruction(check@, desc@, de@),
{
    let c = chars_of(check);
    let d = chars_of(desc);
    let e = chars_of(de);
    if crate::text::chars_eq(&c, &chars_of("structure")) {
        if contains_exec(&d, "Math block") {
            let blocks = crate::translate::verify::math_blocks_exec(&e);
            if blocks.len() == 0 {
                chars_of("Copy all <math>...</math> blocks from the original verbatim.")
            } else {
                let mut out = chars_of("Your translation MUST contain these exact math blocks, copied verbatim:\n");
                push_all(&mut out, &join_exec(&blocks, &chars_of("\n")));
                out
            }
        } else if contains_exec(&d, "HTML tags") {
            let tags = crate::translate::verify::html_tags_exec(&e);
            let mut out = chars_of("Your translation MUST contain these exact HTML tags, copied verbatim: ");
            push_all(&mut out, &join_exec(&tags, &chars_of(", ")));
            out
        } else if contains_exec(&d, "Image") {
            chars_of("Copy all image references (![](path)) from the original verbatim.")
        } else {
            d
        }
    } else if crate::text::chars_eq(&c, &chars_of("emphasis")) {
        let (mark, word): (char, &str) = if contains_exec(&d, "Underscore") {
            ('_', " underscore (_) characters for emphasis. Your translation must also have exactly ")
        } else {
            ('*', " asterisk (*) characters. Your translation must also have exactly ")
        };
        let n = count_char_exec(&e, mark);
        let mut out = chars_of("The original has exactly ");
        push_decimal(&mut out, n as u64);
        push_str(&mut out, word);
        push_decimal(&mut out, n as u64);
        if mark == '_' {
            push_str(&mut out, " underscores.");
        } else {
            push_str(&mut out, " asterisks.");
        }
        out
    } else if crate::text::chars_eq(&c, &chars_of("quotes")) {
        chars_of(QUOTES_INSTRUCTION)
    } else if crate::text::chars_eq(&c, &chars_of("length")) {
        if contains_exec(&d, "truncation") {
            chars_of(TRUNCATION_INSTRUCTION)
        } else {
            chars_of(HALLUCINATION_INSTRUCTION)
        }
    } else if crate::text::chars_eq(&c, &chars_of("untranslated")) {
        chars_of(UNTRANSLATED_INSTRUCTION)
    } else {
        d
    }
}

fn seen_text(v: &Vec<Vec<char>>, x: &Vec<char>) -> (r: bool)
    ensures
        r == views(v@).contains(x@),
{
    let mut i: usize = 0;
    while i < v.len()
        invariant
            i <= v.len(),
            forall|k: int| 0 <= k < i ==> v@[k]@ != x@,
        decreases v.len() - i,
    {
        if crate::text::chars_eq(&v[i], x) {
            assert(views(v@)[i as int] == x@);
            return true;
        }
        i += 1;
    }
    assert(!views(v@).contains(x@)) by {
        if views(v@).contains(x@) {
            let k = choose|k: int| 0 <= k < views(v@).len() && views(v@)[k] == x@;
            assert(v@[k]@ == x@);
        }
    }
    false
}

/// Generate instructions for the model from the issues of a translation: one line per
/// distinct instruction, in order.
pub fn fix_instructions(issues: &[Issue], de_body: &str) -> (r: String)
    ensures
        r@ == spec_fix_instructions(issue_views(issues@), de_body@),
{
    let ghost iv = issue_views(issues@);
    let mut out: Vec<Vec<char>> = Vec::new();
    let mut i: usize = 0;
    while i < issues.len()
        invariant
            i <= issues.len(),
            iv == issue_views(issues@),
            views(out@) == instructions_fold(iv.take(i as int), de_body@),
        decreases issues.len() - i,
    {
        assert(iv.take(i + 1).drop_last() =~= iv.take(i as int));
        assert(iv[i as int] == crate::translate::verify::issue_view(issues@[i as int]));
        let ins = instruction_exec(issues[i].check.as_str(), issues[i].description.as_str(), de_body);
        if !seen_text(&out, &ins) {
            let ghost before = views(out@);
            out.push(ins);
            assert(views(out@) =~= before.push(ins@));
        }
        i += 1;
    }
    assert(iv.take(issues.len() as int) =~= iv);
    string_of(&join_exec(&out, &chars_of("\n")))
}

/// Whether an issue rules out accepting a translation: a structural, length or
/// untranslated-text issue (emphasis mismatches are not critical).
pub open spec fn spec_critical(issues: Seq<IssueView>) -> bool {
    exists|k: int|
        0 <= k < issues.len() && (#[trigger] issues[k].2 == "structure"@ || issues[k].2 == "length"@
            || issues[k].2 == "untranslated"@)
}

/// Critical issue checks that prevent accepting a translation.
pub fn has_critical_issues(issues: &[Issue]) -> (r: bool)
    ensures
        r == spec_critical(issue_views(issues@)),
{
    let ghost iv = issue_views(issues@);
    let mut i: usize = 0;
    while i < issues.len()
        invariant
            i <= issues.len(),
            iv == issue_views(issues@),
            forall|k: int| 0 <= k < i ==> !(iv[k].2 == "structure"@ || iv[k].2 == "length"@ || iv[k].2
                == "untranslated"@),
        decreases issues.len() - i,
    {
        let c = chars_of(issues[i].check.as_str());
        assert(iv[i as int].2 == c@);
        if crate::text::chars_eq(&c, &chars_of("structure")) || crate::text::chars_eq(&c, &chars_of("length"))
            || crate::text::chars_eq(&c, &chars_of("untranslated")) {
            return true;
        }
        i += 1;
    }
    false
}

/// A duration as days, hours and minutes: `1d 2h 3m`, `2h 3m` or `3m`.
pub open spec fn spec_format_duration(total: nat) -> Seq<char> {
    let days = total / 86400;
    let hours = (total % 86400) / 3600;
    let mins = (total % 3600) / 60;
    if days > 0 {
        decimal(days) + "d "@ + decimal(hours) + "h "@ + decimal(mins) + "m"@
    } else if hours > 0 {
        decimal(hours) + "h "@ + decimal(mins) + "m"@
    } else {
        decimal(mins) + "m"@
    }
}

/// Format a number of seconds as days, hours and minutes.
pub fn format_duration(total_secs: u64) -> (r: String)
    ensures
        r@ == spec_format_duration(total_secs as nat),
{
    let days = total_secs / 86400;
    let hours = (total_secs % 86400) / 3600;
    let mins = (total_secs % 3600) / 60;
    let mut out: Vec<char> = Vec::new();
    if days > 0 {
        push_decimal(&mut out, days);
        push_str(&mut out, "d ");
        push_decimal(&mut out, hours);
        push_str(&mut out, "h ");
    } else if hours > 0 {
        push_decimal(&mut out, hours);
        push_str(&mut out, "h ");
    }
    push_decimal(&mut out, mins);
    push_str(&mut out, "m");
    assert(out@ =~= spec_format_duration(total_secs as nat));
    string_of(&out)
}

/// The message for a retry: the glossary section (if any), the emphasis checklist (if
/// any), and the text with the instructions from the previous attempt's issues.
pub open spec fn spec_retry_message(glossary_section: Seq<char>, checklist: Seq<char>, instructions: Seq<char>, text: Seq<char>) -> Seq<char> {
    (if glossary_section.len() > 0 {
        crate::translate::common::GLOSSARY_INTRO@ + glossary_section + "\n\n"@
    } else {
        Seq::empty()
    }) + checklist + RETRY_A@ + instructions + RETRY_B@ + text
}

/// The start of a retry request.
pub const RETRY_A: &'static str = "Translate the following German text to English.\n\nIMPORTANT \u{2014} a previous translation attempt had problems. Make sure your translation avoids them:\n\n";

/// Between the instructions and the text of a retry request.
pub const RETRY_B: &'static str = "\n\nGerman text:\n\n";

/// Build the message for a retry of a remark.
pub fn retry_message(glossary_section: &str, text_with_placeholders: &str, instructions: &str) -> (r: String)
    ensures
        r@ == spec_retry_message(
            glossary_section@,
            crate::translate::common::spec_emphasis_checklist(text_with_placeholders@),
            instructions@,
            text_with_placeholders@,
        ),
{
    let mut msg: Vec<char> = Vec::new();
    if chars_of(glossary_section).len() > 0 {
        push_str(&mut msg, crate::translate::common::GLOSSARY_INTRO);
        push_str(&mut msg, glossary_section);
        push_str(&mut msg, "\n\n");
    }
    let checklist = crate::translate::common::emphasis_checklist(text_with_placeholders);
    push_str(&mut msg, checklist.as_str());
    push_str(&mut msg, RETRY_A);
    push_str(&mut msg, instructions);
    push_str(&mut msg, RETRY_B);
    push_str(&mut msg, text_with_placeholders);
    proof {
        if glossary_section@.len() == 0 {
            assert(msg@ =~= spec_retry_message(glossary_section@, checklist@, instructions@, text_with_placeholders@));
        } else {
            assert(msg@ =~= spec_retry_message(glossary_section@, checklist@, instructions@, text_with_placeholders@));
        }
    }
    string_of(&msg)
}

/// A reply of the model made into a remark body: emphasis tags turned back into
/// Markdown (if they were used), emphasis markers repaired after the German body, and
/// the math blocks restored.
pub open spec fn spec_finish_translation(reply: Seq<char>, restore_html: bool, de_body: Seq<char>, blocks: Seq<Seq<char>>) -> Seq<char> {
    let restored = if restore_html {
        spec_emphasis_from_html(reply)
    } else {
        reply
    };
    restore_fold(spec_fix_emphasis_markers(restored, de_body), blocks)
}

/// Turn a reply of the model into a remark body.
pub fn finish_translation(reply: &str, restore_html: bool, de_body: &str, math_blocks: &[String]) -> (r: String)
    ensures
        r@ == spec_finish_translation(reply@, restore_html, de_body@, string_views(math_blocks@)),
{
    let restored = if restore_html {
        emphasis_from_html(reply)
    } else {
        string_of(&chars_of(reply))
    };
    let fixed = fix_emphasis_markers(restored.as_str(), de_body);
    restore_math(fixed.as_str(), math_blocks)
}

/// A document as written: its preamble, then each remark as a blank line, its heading,
/// a blank line and its body.
pub open spec fn document_text(preamble: Seq<char>, remarks: Seq<(Seq<char>, Seq<char>)>) -> Seq<char>
    decreases remarks.len(),
{
    if remarks.len() == 0 {
        preamble
    } else {
        document_text(preamble, remarks.drop_last()) + "\n"@ + remarks.last().0 + "\n\n"@ + remarks.last().1
            + "\n"@
    }
}

/// Write out a document from its preamble and remarks.
pub fn render_document(preamble: &str, remarks: &[Remark]) -> (r: String)
    ensures
        r@ == document_text(preamble@, remark_views(remarks@)),
{
    let ghost rv = remark_views(remarks@);
    let mut out = chars_of(preamble);
    let mut i: usize = 0;
    while i < remarks.len()
        invariant
            i <= remarks.len(),
            rv == remark_views(remarks@),
            out@ == document_text(preamble@, rv.take(i as int)),
        decreases remarks.len() - i,
    {
        assert(rv.take(i + 1).drop_last() =~= rv.take(i as int));
        assert(rv[i as int] == (remarks@[i as int].heading@, remarks@[i as int].body@));
        push_str(&mut out, "\n");
        push_str(&mut out, remarks[i].heading.as_str());
        push_str(&mut out, "\n\n");
        push_str(&mut out, remarks[i].body.as_str());
        push_str(&mut out, "\n");
        assert(out@ =~= document_text(preamble@, rv.take(i + 1)));
        i += 1;
    }
    assert(rv.take(remarks.len() as int) =~= rv);
    string_of(&out)
}

// ---------------------------------------------------------------------------
// Repairing emphasis segment by segment
// ---------------------------------------------------------------------------

/// What to do with one English segment whose German segment is given.
#[derive(Debug, PartialEq, Eq)]
pub enum SegmentRepair {
    /// The emphasis markers already agree.
    Keep,
    /// The English has emphasis the German lacks: this text, without it, replaces it.
    Strip(String),
    /// The German has emphasis the English does not match: ask the model with this
    /// message.
    Ask(String),
}

/// A segment with its emphasis removed: underscores dropped and `**bold**` unwrapped.
pub open spec fn strip_emphasis(seg: Seq<char>) -> Seq<char> {
    crate::markup::unwrap_all(Pat::Bold, crate::text::replace(seg, "_"@, ""@))
}

/// The view of a repair decision.
pub open spec fn repair_view(r: SegmentRepair) -> Option<(bool, Seq<char>)> {
    match r {
        SegmentRepair::Keep => None,
        SegmentRepair::Strip(t) => Some((false, t@)),
        SegmentRepair::Ask(m) => Some((true, m@)),
    }
}

/// The decision for one segment: keep it when its underscores and asterisks number as
/// many as the German's; strip its emphasis when the German has none; keep it when
/// neither has any; otherwise ask the model, giving it the German segment and the
/// English one without emphasis.
pub open spec fn spec_segment_repair(de: Seq<char>, en: Seq<char>) -> Option<(bool, Seq<char>)> {
    let (du, eu, da, ea) = (count_char(de, '_'), count_char(en, '_'), count_char(de, '*'), count_char(en, '*'));
    if du == eu && da == ea {
        None
    } else if du == 0 && da == 0 && (eu > 0 || ea > 0) {
        Some((false, strip_emphasis(en)))
    } else if du == 0 && da == 0 {
        None
    } else {
        Some((true, "German: "@ + de + "\nEnglish: "@ + strip_emphasis(en)))
    }
}

/// Decide how to repair the emphasis of one English segment against its German one.
pub fn segment_repair(de_seg: &str, en_seg: &str) -> (r: SegmentRepair)
    ensures
        repair_view(r) == spec_segment_repair(de_seg@, en_seg@),
{
    let de = chars_of(de_seg);
    let en = chars_of(en_seg);
    let (du, eu, da, ea) = (count_char_exec(&de, '_'), count_char_exec(&en, '_'), count_char_exec(&de, '*'), count_char_exec(&en, '*'));
    if du == eu && da == ea {
        return SegmentRepair::Keep;
    }
    if du == 0 && da == 0 && (eu > 0 || ea > 0) {
        proof {
            reveal_strlit("_");
            reveal_strlit("");
        }
        let stripped = crate::markup::unwrap_all_exec(&Pat::Bold, &crate::text::replace_exec(&en, "_", ""));
        return SegmentRepair::Strip(string_of(&stripped));
    }
    if du == 0 && da == 0 {
        return SegmentRepair::Keep;
    }
    proof {
        reveal_strlit("_");
        reveal_strlit("");
    }
    let clean = crate::markup::unwrap_all_exec(&Pat::Bold, &crate::text::replace_exec(&en, "_", ""));
    let mut msg = chars_of("German: ");
    push_all(&mut msg, &de);
    push_str(&mut msg, "\nEnglish: ");
    push_all(&mut msg, &clean);
    assert(msg@ =~= "German: "@ + de_seg@ + "\nEnglish: "@ + strip_emphasis(en_seg@));
    SegmentRepair::Ask(string_of(&msg))
}

/// Whether a repaired segment (once trimmed) has as many underscores and asterisks as
/// the German segment.
pub fn repair_fits(result: &str, de_seg: &str) -> (r: bool)
    ensures
        r == (count_char(crate::text::trim(result@), '_') == count_char(de_seg@, '_') && count_char(
            crate::text::trim(result@),
            '*',
        ) == count_char(de_seg@, '*')),
{
    let t = crate::text::trim_exec(&chars_of(result));
    let de = chars_of(de_seg);
    count_char_exec(&t, '_') == count_char_exec(&de, '_') && count_char_exec(&t, '*') == count_char_exec(&de, '*')
}
} // verus!
