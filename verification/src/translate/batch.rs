//! Translating several remarks in one request: which remarks go together, the
//! numbered request, and reading the numbered reply.
use vstd::prelude::*;
use crate::covers::parse::byte_len;
use crate::translate::common::{
    matching_terms, normalize, placeholder, replace_first, replace_first_exec, spec_emphasis_from_html,
    spec_emphasis_to_html, spec_extract_math, spec_fix_emphasis_markers, string_views, Glossary, CONTEXT_INTRO,
    CONTEXT_SEP, GLOSSARY_INTRO,
};
use crate::text::{
    chars_eq, chars_of, decimal, decimal_exec_wide, join, join_exec, push_all, push_str, replace, replace_chars,
    string_of, trim, trim_exec, views, white_space,
};

verus! {

// ---------------------------------------------------------------------------
// Choosing a batch
// ---------------------------------------------------------------------------

/// The end of the batch that starts at `start`, having taken the remarks up to `i`
/// with `used` bytes: remarks with non-blank bodies, stopping before a reusable one and
/// before one that would take the batch over `max` bytes (the first remark is always
/// taken).
pub open spec fn batch_end_from(
    bodies: Seq<Seq<char>>,
    reusable: Seq<bool>,
    start: int,
    max: nat,
    i: int,
    used: nat,
) -> int
    decreases bodies.len() - i,
{
    if i < start || i >= bodies.len() || trim(bodies[i]).len() == 0 {
        i
    } else if i > start && reusable[i] {
        i
    } else if i > start && used + byte_len(bodies[i]) > max {
        i
    } else {
        batch_end_from(bodies, reusable, start, max, i + 1, used + byte_len(bodies[i]))
    }
}

proof fn lemma_batch_from(bodies: Seq<Seq<char>>, reusable: Seq<bool>, start: int, max: nat, i: int, used: nat)
    requires
        0 <= start <= i <= bodies.len(),
        reusable.len() == bodies.len(),
        used == crate::translate::session::total_bytes(bodies.subrange(start, i)),
        i > start + 1 ==> used <= max,
    ensures
        ({
            let e = batch_end_from(bodies, reusable, start, max, i, used);
            &&& i <= e <= bodies.len()
            &&& forall|k: int| i <= k < e ==> trim(#[trigger] bodies[k]).len() > 0
            &&& forall|k: int| i <= k < e && k > start ==> !#[trigger] reusable[k]
            &&& e > start + 1 ==> crate::translate::session::total_bytes(bodies.subrange(start, e)) <= max
        }),
    decreases bodies.len() - i,
{
    if i < bodies.len() && trim(bodies[i]).len() > 0 && !(i > start && reusable[i]) && !(i > start && used + byte_len(
        bodies[i],
    ) > max) {
        let next = used + byte_len(bodies[i]);
        assert(bodies.subrange(start, i + 1).drop_last() =~= bodies.subrange(start, i));
        assert(bodies.subrange(start, i + 1).last() == bodies[i]);
        lemma_batch_from(bodies, reusable, start, max, i + 1, next);
    }
}

/// A batch keeps to its budget: its remarks have non-blank bodies, none after the
/// first is reusable, and a batch of more than one remark holds at most `max` bytes.
pub proof fn lemma_batch_within_budget(bodies: Seq<Seq<char>>, reusable: Seq<bool>, start: int, max: nat)
    requires
        0 <= start <= bodies.len(),
        reusable.len() == bodies.len(),
    ensures
        ({
            let e = batch_end_from(bodies, reusable, start, max, start, 0);
            &&& start <= e <= bodies.len()
            &&& forall|k: int| start <= k < e ==> trim(#[trigger] bodies[k]).len() > 0
            &&& forall|k: int| start < k < e ==> !#[trigger] reusable[k]
            &&& e > start + 1 ==> crate::translate::session::total_bytes(bodies.subrange(start, e)) <= max
        }),
{
    assert(bodies.subrange(start, start) =~= Seq::<Seq<char>>::empty());
    lemma_batch_from(bodies, reusable, start, max, start, 0);
}

/// A batch that starts at a remark with a non-blank body takes at least that remark.
pub proof fn lemma_batch_end_advances(bodies: Seq<Seq<char>>, reusable: Seq<bool>, start: int, max: nat)
    requires
        0 <= start < bodies.len(),
        reusable.len() == bodies.len(),
        trim(bodies[start]).len() > 0,
    ensures
        start < batch_end_from(bodies, reusable, start, max, start, 0) <= bodies.len(),
{
    let used = byte_len(bodies[start]);
    assert(bodies.subrange(start, start + 1).drop_last() =~= Seq::<Seq<char>>::empty());
    assert(bodies.subrange(start, start + 1).last() == bodies[start]);
    assert(crate::translate::session::total_bytes(bodies.subrange(start, start + 1)) == used) by {
        reveal_with_fuel(crate::translate::session::total_bytes, 2);
    }
    lemma_batch_from(bodies, reusable, start, max, start + 1, used);
}

/// The end (exclusive) of the batch of remarks that starts at `start`: consecutive
/// remarks with non-blank bodies, none reusable after the first, whose bodies together
/// hold at most `max_chars` bytes (the first remark is taken whatever its size).
pub fn batch_end(bodies: &[String], reusable: &[bool], start: usize, max_chars: usize) -> (r: usize)
    requires
        reusable.len() == bodies.len(),
        start <= bodies.len(),
    ensures
        r == batch_end_from(string_views(bodies@), reusable@, start as int, max_chars as nat, start as int, 0),
        start <= r <= bodies.len(),
{
    let ghost bv = string_views(bodies@);
    let mut i = start;
    let mut used: u128 = 0;
    while i < bodies.len()
        invariant
            start <= i <= bodies.len() == reusable.len(),
            bv == string_views(bodies@),
            used <= 0xffff_ffff_ffff_ffff,
            i == start ==> used == 0,
            batch_end_from(bv, reusable@, start as int, max_chars as nat, start as int, 0)
                == batch_end_from(bv, reusable@, start as int, max_chars as nat, i as int, used as nat),
        decreases bodies.len() - i,
    {
        let b = bodies[i].as_str();
        assert(bv[i as int] == b@);
        if crate::text::is_blank(&chars_of(b)) {
            return i;
        }
        if i > start && reusable[i] {
            return i;
        }
        let n = b.len() as u128;
        assert(n == byte_len(bv[i as int]));
        if i > start && used + n > max_chars as u128 {
            return i;
        }
        used = used + n;
        i += 1;
    }
    i
}

// ---------------------------------------------------------------------------
// The request
// ---------------------------------------------------------------------------

/// The glossary lines for a text (`Glossary::filter_for`).
pub open spec fn glossary_lines(terms: Seq<(Seq<char>, Seq<char>)>, text: Seq<char>) -> Seq<char> {
    if terms.len() == 0 {
        Seq::empty()
    } else {
        matching_terms(terms, normalize(text))
    }
}

/// The text with its placeholders `1..=k` renumbered to follow `offset`, one after the
/// other, each replacement applying to all occurrences in what the previous ones left.
pub open spec fn renumber(text: Seq<char>, k: nat, offset: nat) -> Seq<char>
    decreases k,
{
    if k == 0 {
        text
    } else {
        let prev = renumber(text, (k - 1) as nat, offset);
        if placeholder(k) == placeholder(offset + k) {
            prev
        } else {
            replace(prev, placeholder(k), placeholder(offset + k))
        }
    }
}

/// The numbered passages of a batch, the glossary lines of its remarks, the math
/// blocks of each remark, and how many math blocks there are.
pub open spec fn batch_fold(bodies: Seq<Seq<char>>, terms: Seq<(Seq<char>, Seq<char>)>) -> (
    Seq<char>,
    Seq<char>,
    Seq<Seq<Seq<char>>>,
    nat,
)
    decreases bodies.len(),
{
    if bodies.len() == 0 {
        (Seq::empty(), Seq::empty(), Seq::empty(), 0)
    } else {
        let (t, g, bs, off) = batch_fold(bodies.drop_last(), terms);
        let body = bodies.last();
        let (x, b) = spec_extract_math(body);
        let html = spec_emphasis_to_html(renumber(x, b.len(), off));
        let n = bodies.len() - 1;
        (
            t + (if n > 0 {
                "\n\n"@
            } else {
                Seq::empty()
            }) + "["@ + decimal((n + 1) as nat) + "]\n"@ + html,
            g + glossary_lines(terms, body),
            bs.push(b),
            off + b.len(),
        )
    }
}

/// The start of a batch request's instructions.
pub const BATCH_A: &'static str = "Translate each of the following ";

/// The rest of a batch request's instructions.
pub const BATCH_B: &'static str = " numbered German passages to English. Output your translations in the same numbered format ([1], [2], etc.).\nPreserve all HTML tags (<em>, </em>, etc.) exactly.\n\n";

/// The request for a batch: the glossary lines of its remarks (if any), the context
/// (if any), the instructions and the numbered passages (`[1]`, `[2]`, …), each with
/// its math blocks replaced by placeholders numbered across the batch and its emphasis
/// written as HTML.
pub open spec fn spec_batch_message(
    bodies: Seq<Seq<char>>,
    terms: Seq<(Seq<char>, Seq<char>)>,
    context: Seq<Seq<char>>,
) -> Seq<char> {
    let (t, g, _, _) = batch_fold(bodies, terms);
    (if g.len() > 0 {
        GLOSSARY_INTRO@ + g + "\n\n"@
    } else {
        Seq::empty()
    }) + (if context.len() > 0 {
        CONTEXT_INTRO@ + join(context, CONTEXT_SEP@) + CONTEXT_SEP@
    } else {
        Seq::empty()
    }) + BATCH_A@ + decimal(bodies.len()) + BATCH_B@ + t
}

fn placeholder_wide(n: u128) -> (r: Vec<char>)
    ensures
        r@ == placeholder(n as nat),
{
    let mut v = chars_of("\u{27E6}MATH:");
    push_all(&mut v, &decimal_exec_wide(n));
    push_str(&mut v, "\u{27E7}");
    v
}

fn renumber_exec(text: &[char], k: usize, offset: u128) -> (r: Vec<char>)
    requires
        offset + k <= u128::MAX,
    ensures
        r@ == renumber(text@, k as nat, offset as nat),
{
    let mut t: Vec<char> = crate::text::copy_chars(text);
    let mut j: usize = 0;
    while j < k
        invariant
            j <= k,
            offset + k <= u128::MAX,
            t@ == renumber(text@, j as nat, offset as nat),
        decreases k - j,
    {
        let old = placeholder_wide((j + 1) as u128);
        let new = placeholder_wide(offset + (j + 1) as u128);
        if !chars_eq(&old, &new) {
            proof {
                reveal_strlit("\u{27E6}MATH:");
            }
            assert(old@.len() > 0);
            t = replace_chars(&t, &old, &new);
        }
        j += 1;
    }
    t
}

/// Build the request for a batch of remark bodies, with the glossary lines that match
/// each and the context; also returns the math blocks of each remark, whose
/// placeholders are numbered across the batch in order.
pub fn batch_message(bodies: &[String], glossary: &Glossary, context: &[String]) -> (r: (String, Vec<Vec<String>>))
    ensures
        r.0@ == spec_batch_message(string_views(bodies@), glossary.spec_terms(), string_views(context@)),
        r.1@.map_values(|b: Vec<String>| string_views(b@)) == batch_fold(string_views(bodies@), glossary.spec_terms()).2,
{
    let ghost bv = string_views(bodies@);
    let ghost terms = glossary.spec_terms();
    let mut text: Vec<char> = Vec::new();
    let mut gloss: Vec<char> = Vec::new();
    let mut blocks: Vec<Vec<String>> = Vec::new();
    let mut offset: u128 = 0;
    let mut i: usize = 0;
    while i < bodies.len()
        invariant
            i <= bodies.len(),
            bv == string_views(bodies@),
            terms == glossary.spec_terms(),
            offset <= i * 0x1_0000_0000_0000_0000,
            (text@, gloss@, blocks@.map_values(|b: Vec<String>| string_views(b@)), offset as nat) == batch_fold(
                bv.take(i as int),
                terms,
            ),
        decreases bodies.len() - i,
    {
        proof {
            assert(bv.take(i + 1).drop_last() =~= bv.take(i as int));
        }
        let body = bodies[i].as_str();
        assert(bv.take(i + 1).last() == body@);
        let (x, b) = crate::translate::common::extract_math(body);
        let renumbered = renumber_exec(&chars_of(x.as_str()), b.len(), offset);
        let html = crate::translate::common::emphasis_to_html(string_of(&renumbered).as_str());
        let ghost t0 = text@;
        if i > 0 {
            push_str(&mut text, "\n\n");
        }
        push_str(&mut text, "[");
        push_all(&mut text, &decimal_exec_wide((i + 1) as u128));
        push_str(&mut text, "]\n");
        push_str(&mut text, html.as_str());
        proof {
            if i > 0 {
                assert(text@ =~= t0 + "\n\n"@ + "["@ + decimal((i + 1) as nat) + "]\n"@ + html@);
            } else {
                assert(text@ =~= t0 + Seq::<char>::empty() + "["@ + decimal((i + 1) as nat) + "]\n"@ + html@);
            }
        }
        let g = glossary.filter_for(body);
        push_str(&mut gloss, g.as_str());
        let nb = b.len();
        let ghost before = blocks@;
        blocks.push(b);
        assert(blocks@.map_values(|v: Vec<String>| string_views(v@)) =~= before.map_values(
            |v: Vec<String>| string_views(v@),
        ).push(string_views(b@)));
        offset = offset + nb as u128;
        i += 1;
    }
    assert(bv.take(bodies.len() as int) =~= bv);
    let mut msg: Vec<char> = Vec::new();
    if gloss.len() > 0 {
        push_str(&mut msg, GLOSSARY_INTRO);
        push_all(&mut msg, &gloss);
        push_str(&mut msg, "\n\n");
    }
    let ghost m0 = msg@;
    if context.len() > 0 {
        push_str(&mut msg, CONTEXT_INTRO);
        let mut parts: Vec<Vec<char>> = Vec::new();
        let mut j: usize = 0;
        while j < context.len()
            invariant
                j <= context.len(),
                views(parts@) == string_views(context@).take(j as int),
            decreases context.len() - j,
        {
            let c = chars_of(context[j].as_str());
            let ghost before = parts@;
            parts.push(c);
            assert(views(parts@) =~= views(before).push(c@));
            assert(string_views(context@).take(j + 1) =~= string_views(context@).take(j as int).push(c@));
            j += 1;
        }
        assert(string_views(context@).take(context.len() as int) =~= string_views(context@));
        push_all(&mut msg, &join_exec(&parts, &chars_of(CONTEXT_SEP)));
        push_str(&mut msg, CONTEXT_SEP);
    }
    let ghost m1 = msg@;
    push_str(&mut msg, BATCH_A);
    push_all(&mut msg, &decimal_exec_wide(bodies.len() as u128));
    push_str(&mut msg, BATCH_B);
    push_all(&mut msg, &text);
    proof {
        assert(bv.len() == bodies.len());
        let ctx_part = if string_views(context@).len() > 0 {
            CONTEXT_INTRO@ + join(string_views(context@), CONTEXT_SEP@) + CONTEXT_SEP@
        } else {
            Seq::<char>::empty()
        };
        assert(m1 =~= m0 + ctx_part);
        assert(msg@ =~= m0 + ctx_part + BATCH_A@ + decimal(bodies.len() as nat) + BATCH_B@ + text@);
    }
    (string_of(&msg), blocks)
}

// ---------------------------------------------------------------------------
// Restoring a translated passage
// ---------------------------------------------------------------------------

/// `text` with the placeholders of `blocks`, numbered after `first`, replaced in turn,
/// each at its first occurrence.
pub open spec fn restore_from(text: Seq<char>, blocks: Seq<Seq<char>>, first: nat) -> Seq<char>
    decreases blocks.len(),
{
    if blocks.len() == 0 {
        text
    } else {
        replace_first(restore_from(text, blocks.drop_last(), first), placeholder(first + blocks.len()), blocks.last())
    }
}

/// A translated passage of a batch made into a remark body: trimmed, emphasis tags
/// turned back into Markdown, emphasis markers repaired after the German body, and the
/// remark's math blocks (numbered after `first` in the batch) restored.
pub open spec fn spec_restore_batch_part(
    translated: Seq<char>,
    de_body: Seq<char>,
    blocks: Seq<Seq<char>>,
    first: nat,
) -> Seq<char> {
    restore_from(spec_fix_emphasis_markers(spec_emphasis_from_html(trim(translated)), de_body), blocks, first)
}

/// Turn a translated passage of a batch into the remark body.
pub fn restore_batch_part(translated: &str, de_body: &str, blocks: &[String], first: usize) -> (r: String)
    ensures
        r@ == spec_restore_batch_part(translated@, de_body@, string_views(blocks@), first as nat),
{
    let t = string_of(&trim_exec(&chars_of(translated)));
    let e = crate::translate::common::emphasis_from_html(t.as_str());
    let f = crate::translate::common::fix_emphasis_markers(e.as_str(), de_body);
    let ghost bv = string_views(blocks@);
    let mut out = chars_of(f.as_str());
    let mut j: usize = 0;
    while j < blocks.len()
        invariant
            j <= blocks.len(),
            bv == string_views(blocks@),
            out@ == restore_from(f@, bv.take(j as int), first as nat),
        decreases blocks.len() - j,
    {
        proof {
            assert(bv.take(j + 1).drop_last() =~= bv.take(j as int));
        }
        let p = placeholder_wide(first as u128 + (j + 1) as u128);
        out = replace_first_exec(&out, &p, &chars_of(blocks[j].as_str()));
        j += 1;
    }
    assert(bv.take(blocks.len() as int) =~= bv);
    string_of(&out)
}


// ---------------------------------------------------------------------------
// Reading the reply
// ---------------------------------------------------------------------------

/// The end of the run of white space starting at `i`.
pub open spec fn ws_end(s: Seq<char>, i: int) -> int
    decreases s.len() - i,
{
    if i < 0 || i >= s.len() || !white_space(s[i]) {
        i
    } else {
        ws_end(s, i + 1)
    }
}

/// A run of white space ends within the text, at or after its start.
pub proof fn lemma_ws_end(s: Seq<char>, i: int)
    requires
        0 <= i <= s.len(),
    ensures
        i <= ws_end(s, i) <= s.len(),
    decreases s.len() - i,
{
    if i < s.len() && white_space(s[i]) {
        lemma_ws_end(s, i + 1);
    }
}

/// A marker `[N]` (N one or more decimal digits) at the start of a line at `p`: the
/// index of its `]` and the end of the white space after it.
pub open spec fn marker_at(s: Seq<char>, p: int) -> Option<(int, int)> {
    if 0 <= p < s.len() && (p == 0 || s[p - 1] == '\n') && s[p] == '[' {
        let d = crate::text::run_end(s, p + 1, crate::text::CharClass::Digit);
        if d > p + 1 && d < s.len() && s[d] == ']' {
            Some((d, ws_end(s, d + 1)))
        } else {
            None
        }
    } else {
        None
    }
}

/// The markers from `p` on, left to right: `(start, index of ']', end)`.
pub open spec fn markers_from(s: Seq<char>, p: int) -> Seq<(int, int, int)>
    decreases s.len() - p,
{
    if p < 0 || p >= s.len() {
        Seq::empty()
    } else {
        match marker_at(s, p) {
            Some((d, e)) => {
                proof {
                    crate::text::lemma_run_end_in_class(s, p + 1, crate::text::CharClass::Digit);
                    lemma_ws_end(s, d + 1);
                }
                seq![(p, d, e)] + markers_from(s, e)
            },
            None => markers_from(s, p + 1),
        }
    }
}

/// The number of a marker's digits, if they are ASCII digits whose value fits `usize`.
pub open spec fn marker_number(digits: Seq<char>) -> Option<nat> {
    if (forall|i: int| 0 <= i < digits.len() ==> crate::search::parse::ascii_digit(#[trigger] digits[i]))
        && crate::search::record::digits_value(digits) <= usize::MAX {
        Some(crate::search::record::digits_value(digits))
    } else {
        None
    }
}

/// The numbers of the markers that have one, in order.
pub open spec fn marker_numbers(s: Seq<char>, ms: Seq<(int, int, int)>) -> Seq<nat>
    decreases ms.len(),
{
    if ms.len() == 0 {
        Seq::empty()
    } else {
        let prev = marker_numbers(s, ms.drop_last());
        match marker_number(s.subrange(ms.last().0 + 1, ms.last().1)) {
            Some(n) => prev.push(n),
            None => prev,
        }
    }
}

/// The text after marker `k`, up to the next marker or the end.
pub open spec fn part_after(s: Seq<char>, ms: Seq<(int, int, int)>, k: int) -> Seq<char> {
    s.subrange(ms[k].2, if k + 1 < ms.len() {
        ms[k + 1].0
    } else {
        s.len() as int
    })
}

/// The reply to a batch split at its markers `[N]` (each at the start of a line, with
/// the white space after it): the numbers that parse, paired in order with the texts
/// after the markers (as many pairs as there are of the shorter).
pub open spec fn spec_split_batch_reply(s: Seq<char>) -> Seq<(nat, Seq<char>)> {
    let ms = markers_from(s, 0);
    let ns = marker_numbers(s, ms);
    let n = if ns.len() < ms.len() {
        ns.len()
    } else {
        ms.len()
    };
    Seq::new(n, |i: int| (ns[i], part_after(s, ms, i)))
}

fn ws_end_exec(s: &[char], i: usize) -> (r: usize)
    requires
        i <= s.len(),
    ensures
        r == ws_end(s@, i as int),
        i <= r <= s.len(),
{
    let mut j = i;
    while j < s.len() && crate::text::is_white_space(s[j])
        invariant
            i <= j <= s.len(),
            ws_end(s@, i as int) == ws_end(s@, j as int),
        decreases s.len() - j,
    {
        j += 1;
    }
    j
}

fn marker_at_exec(s: &[char], p: usize) -> (r: Option<(usize, usize)>)
    requires
        p < s.len(),
    ensures
        r matches Some((d, e)) ==> marker_at(s@, p as int) == Some((d as int, e as int)) && p < d < e <= s.len(),
        r is None ==> marker_at(s@, p as int) is None,
{
    if !((p == 0 || s[p - 1] == '\n') && s[p] == '[') {
        return None;
    }
    let d = crate::text::run_end_exec(s, p + 1, &crate::text::CharClass::Digit);
    if d > p + 1 && d < s.len() && s[d] == ']' {
        let e = ws_end_exec(s, d + 1);
        Some((d, e))
    } else {
        None
    }
}

fn marker_number_exec(s: &[char], from: usize, to: usize) -> (r: Option<usize>)
    requires
        from <= to <= s.len(),
    ensures
        r matches Some(n) ==> marker_number(s@.subrange(from as int, to as int)) == Some(n as nat),
        r is None ==> marker_number(s@.subrange(from as int, to as int)) is None,
{
    let ghost ds = s@.subrange(from as int, to as int);
    let mut v: u128 = 0;
    let mut over = false;
    let mut i = from;
    while i < to
        invariant
            from <= i <= to <= s.len(),
            ds == s@.subrange(from as int, to as int),
            forall|k: int| 0 <= k < i - from ==> crate::search::parse::ascii_digit(#[trigger] ds[k]),
            !over ==> v == crate::search::record::digits_value(ds.take(i - from)) && v <= usize::MAX,
            over ==> crate::search::record::digits_value(ds.take(i - from)) > usize::MAX,
        decreases to - i,
    {
        let c = s[i];
        assert(ds[i - from] == c);
        if !('0' <= c && c <= '9') {
            assert(!crate::search::parse::ascii_digit(ds[i - from]));
            return None;
        }
        assert(ds.take(i - from + 1).drop_last() =~= ds.take(i - from));
        let dv = (c as u32 - '0' as u32) as u128;
        if !over {
            let nv = v * 10 + dv;
            if nv > usize::MAX as u128 {
                over = true;
            } else {
                v = nv;
            }
        } else {
            proof {
                assert(crate::search::record::digits_value(ds.take(i - from + 1)) >= crate::search::record::digits_value(
                    ds.take(i - from),
                ) * 10);
            }
        }
        i += 1;
    }
    assert(ds.take(to - from) =~= ds);
    if over {
        None
    } else {
        Some(v as usize)
    }
}

/// Split the reply to a batch at its markers `[N]`: the numbers that parse, paired in
/// order with the translated passages that follow the markers.
pub fn split_batch_reply(reply: &str) -> (r: Vec<(usize, String)>)
    ensures
        r@.map_values(|x: (usize, String)| (x.0 as nat, x.1@)) == spec_split_batch_reply(reply@),
{
    let s = chars_of(reply);
    let mut ms: Vec<(usize, usize, usize)> = Vec::new();
    let mut p: usize = 0;
    while p < s.len()
        invariant
            p <= s.len(),
            s@ == reply@,
            ms@.map_values(|m: (usize, usize, usize)| (m.0 as int, m.1 as int, m.2 as int)) + markers_from(s@, p as int)
                == markers_from(s@, 0),
            forall|k: int| #![trigger ms@[k]] 0 <= k < ms.len() ==> ms@[k].0 < ms@[k].1 < ms@[k].2 <= p,
            forall|a: int, b: int| 0 <= a < b < ms.len() ==> #[trigger] ms@[a].2 <= #[trigger] ms@[b].0,
        decreases s.len() - p,
    {
        let ghost before = ms@.map_values(|m: (usize, usize, usize)| (m.0 as int, m.1 as int, m.2 as int));
        match marker_at_exec(&s, p) {
            Some((d, e)) => {
                let ghost old_ms = ms@;
                ms.push((p, d, e));
                assert forall|a: int, b: int| 0 <= a < b < ms.len() implies #[trigger] ms@[a].2 <= #[trigger] ms@[b].0 by {
                    assert(ms@[a] == old_ms[a]);
                    if b < ms.len() - 1 {
                        assert(ms@[b] == old_ms[b]);
                    } else {
                        assert(ms@[b] == (p, d, e));
                        assert(old_ms[a].0 < old_ms[a].1 < old_ms[a].2 <= p);
                    }
                }
                assert(ms@.map_values(|m: (usize, usize, usize)| (m.0 as int, m.1 as int, m.2 as int)) =~= before.push(
                    (p as int, d as int, e as int),
                ));
                assert(markers_from(s@, p as int) == seq![(p as int, d as int, e as int)] + markers_from(s@, e as int));
                assert(before + markers_from(s@, p as int) =~= before.push((p as int, d as int, e as int))
                    + markers_from(s@, e as int));
                let ghost p0 = p;
                p = e;
                assert forall|k: int| #![trigger ms@[k]] 0 <= k < ms.len() implies ms@[k].0 < ms@[k].1 < ms@[k].2 <= p by {
                    if k < ms.len() - 1 {
                        assert(ms@[k] == old_ms[k]);
                        assert(old_ms[k].2 <= p0);
                    }
                }
            },
            None => {
                p += 1;
            },
        }
    }
    let ghost mv = ms@.map_values(|m: (usize, usize, usize)| (m.0 as int, m.1 as int, m.2 as int));
    assert(markers_from(s@, p as int) == Seq::<(int, int, int)>::empty());
    assert(mv + Seq::<(int, int, int)>::empty() =~= mv);
    let mut ns: Vec<usize> = Vec::new();
    let mut k: usize = 0;
    while k < ms.len()
        invariant
            k <= ms.len(),
            mv == ms@.map_values(|m: (usize, usize, usize)| (m.0 as int, m.1 as int, m.2 as int)),
            forall|q: int| 0 <= q < ms.len() ==> #[trigger] ms@[q].0 < ms@[q].1 < ms@[q].2 <= s.len(),
            forall|a: int, b: int| 0 <= a < b < ms.len() ==> #[trigger] ms@[a].2 <= #[trigger] ms@[b].0,
            ns@.map_values(|x: usize| x as nat) == marker_numbers(s@, mv.take(k as int)),
        decreases ms.len() - k,
    {
        proof {
            assert(mv.take(k + 1).drop_last() =~= mv.take(k as int));
        }
        let (a, d, _e) = ms[k];
        match marker_number_exec(&s, a + 1, d) {
            Some(n) => {
                let ghost before = ns@;
                ns.push(n);
                assert(ns@.map_values(|x: usize| x as nat) =~= before.map_values(|x: usize| x as nat).push(n as nat));
            },
            None => {},
        }
        k += 1;
    }
    assert(mv.take(ms.len() as int) =~= mv);
    let n = if ns.len() < ms.len() {
        ns.len()
    } else {
        ms.len()
    };
    let mut out: Vec<(usize, String)> = Vec::new();
    let mut i: usize = 0;
    while i < n
        invariant
            i <= n <= ns.len(),
            n <= ms.len(),
            n == (if ns.len() < ms.len() { ns.len() } else { ms.len() }),
            mv == ms@.map_values(|m: (usize, usize, usize)| (m.0 as int, m.1 as int, m.2 as int)),
            forall|q: int| 0 <= q < ms.len() ==> #[trigger] ms@[q].0 < ms@[q].1 < ms@[q].2 <= s.len(),
            forall|a: int, b: int| 0 <= a < b < ms.len() ==> #[trigger] ms@[a].2 <= #[trigger] ms@[b].0,
            s@ == reply@,
            markers_from(s@, 0) == mv,
            ns@.map_values(|x: usize| x as nat) == marker_numbers(s@, mv),
            out@.map_values(|x: (usize, String)| (x.0 as nat, x.1@)) == spec_split_batch_reply(reply@).take(i as int),
        decreases n - i,
    {
        let end = if i + 1 < ms.len() {
            ms[i + 1].0
        } else {
            s.len()
        };
        proof {
            if i + 1 < ms.len() {
                assert(ms@[i as int].2 <= ms@[i + 1].0);
            }
        }
        let text = string_of(&crate::text::slice_chars(&s, ms[i].2, end));
        let ghost before = out@;
        out.push((ns[i], text));
        proof {
            assert(ns@.map_values(|x: usize| x as nat)[i as int] == ns@[i as int] as nat);
            assert(mv[i as int] == (ms@[i as int].0 as int, ms@[i as int].1 as int, ms@[i as int].2 as int));
            if i + 1 < ms.len() {
                assert(mv[i + 1] == (ms@[i + 1].0 as int, ms@[i + 1].1 as int, ms@[i + 1].2 as int));
            }
            assert(text@ == part_after(s@, mv, i as int));
            let sp = spec_split_batch_reply(reply@);
            assert(sp.len() == n);
            assert(marker_numbers(s@, mv)[i as int] == ns@[i as int] as nat);
            assert(sp[i as int] == (ns@[i as int] as nat, text@));
            assert(sp.take(i + 1) =~= sp.take(i as int).push(sp[i as int]));
            assert(out@.map_values(|x: (usize, String)| (x.0 as nat, x.1@)) =~= before.map_values(
                |x: (usize, String)| (x.0 as nat, x.1@),
            ).push((ns@[i as int] as nat, text@)));
            assert(out@.map_values(|x: (usize, String)| (x.0 as nat, x.1@)) =~= spec_split_batch_reply(reply@).take(
                i + 1,
            ));
        }
        i += 1;
    }
    assert(spec_split_batch_reply(reply@).take(n as int) =~= spec_split_batch_reply(reply@));
    out
}
} // verus!
