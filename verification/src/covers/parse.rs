//! What a cover shows of a document: its title, subtitle and the shape of its
//! paragraphs.
use vstd::prelude::*;
use crate::markup::{content, first_hit, first_hit_exec, strip_all, strip_all_exec, unwrap_all, unwrap_all_exec, Delimiter, Pat};
use crate::pdfs::prepare::index_title;
use crate::text::{
    chars_of, contains, contains_exec, count_char, count_char_exec, lines, lines_exec, push_all,
    replace, replace_exec, slice_chars, starts_with, starts_with_exec, string_of, trim, trim_exec,
    views, white_space,
};

verus! {

/// The text of a cover: title, optional subtitle, paragraphs.
pub struct CoverData {
    pub title: String,
    pub subtitle: Option<String>,
    pub paragraphs: Vec<Paragraph>,
}

/// The shape of a paragraph: its plain text, its length in bytes, whether it holds
/// bold text, and its numbers of question marks and periods.
pub struct Paragraph {
    pub text: String,
    pub len: usize,
    pub has_bold: bool,
    pub question_marks: usize,
    pub periods: usize,
}

/// A paragraph as `(text, len, has_bold, question marks, periods)`.
pub type ParagraphView = (Seq<char>, nat, bool, nat, nat);

/// The view of a paragraph.
pub open spec fn paragraph_view(p: Paragraph) -> ParagraphView {
    (p.text@, p.len as nat, p.has_bold, p.question_marks as nat, p.periods as nat)
}

/// The subtitle: the trimmed text of the first `<summary>…</summary>` on one line.
pub open spec fn spec_subtitle(content: Seq<char>) -> Option<Seq<char>> {
    match first_hit(Pat::Delim(Delimiter::Summary), content, 0) {
        Some(h) => Some(trim(crate::markup::content(content, h))),
        None => None,
    }
}

/// The length in bytes of the UTF-8 encoding of a text (`str::len`).
pub open spec fn byte_len(s: Seq<char>) -> nat {
    (vstd::utf8::encode_utf8(s).len() as usize) as nat
}

/// A horizontal rule: at least three bytes once trimmed, and only `-`, `*` and `_`
/// besides white space.
pub open spec fn cover_rule(line: Seq<char>) -> bool {
    let t = trim(line);
    byte_len(t) >= 3 && crate::search::parse::rule_scan(t).0 > 0 && crate::search::parse::rule_scan(t).1
}

/// Text with tags and bold markers removed and emphasis, links and reading variants
/// replaced by their text.
pub open spec fn cover_plain(text: Seq<char>) -> Seq<char> {
    unwrap_all(
        Pat::Variant,
        unwrap_all(Pat::MdLink, unwrap_all(Pat::Em, replace(strip_all(Pat::Tag, text), "**"@, ""@))),
    )
}

/// The shape of a paragraph of text.
pub open spec fn make_paragraph(text: Seq<char>) -> ParagraphView {
    let plain = cover_plain(text);
    (plain, byte_len(plain), contains(text, "**"@), count_char(text, '?'), count_char(text, '.'))
}

/// The state while collecting paragraphs: paragraphs, current text, inside
/// `<details>`, inside a display math block.
pub type ParaState = (Seq<ParagraphView>, Seq<char>, bool, bool);

/// `ps` with the current text made a paragraph, if there is any.
pub open spec fn flush(ps: Seq<ParagraphView>, cur: Seq<char>) -> Seq<ParagraphView> {
    if cur.len() > 0 {
        ps.push(make_paragraph(cur))
    } else {
        ps
    }
}

/// Reads one line: `<details>` blocks and display math are skipped; headings, rules
/// and blank lines end a paragraph; HTML block lines are skipped; other lines are
/// added, trimmed, to the current paragraph.
#[verifier::opaque]
pub open spec fn para_step(st: ParaState, line: Seq<char>) -> ParaState {
    let (ps, cur, inside, in_math) = st;
    let t = trim(line);
    if contains(line, "<details"@) {
        (ps, cur, true, in_math)
    } else if contains(line, "</details>"@) {
        (ps, cur, false, in_math)
    } else if inside {
        st
    } else if contains(line, "<math"@) && contains(line, "display=\"block\""@) && !contains(line, "</math>"@) {
        (ps, cur, inside, true)
    } else if in_math {
        (ps, cur, inside, !contains(line, "</math>"@))
    } else if starts_with(line, "#"@) || cover_rule(line) || t.len() == 0 {
        (flush(ps, cur), Seq::empty(), inside, in_math)
    } else if starts_with(t, "<img "@) || starts_with(t, "<summary"@) || starts_with(t, "</summary"@) || t
        == "<details>"@ || t == "</details>"@ {
        st
    } else {
        (ps, if cur.len() > 0 {
            cur.push(' ') + t
        } else {
            t
        }, inside, in_math)
    }
}

/// The state after reading the lines `ls`.
pub open spec fn para_fold(ls: Seq<Seq<char>>) -> ParaState
    decreases ls.len(),
{
    if ls.len() == 0 {
        (Seq::empty(), Seq::empty(), false, false)
    } else {
        para_step(para_fold(ls.drop_last()), ls.last())
    }
}

/// The paragraphs of a document.
pub open spec fn spec_paragraphs(content: Seq<char>) -> Seq<ParagraphView> {
    let (ps, cur, _d, _m) = para_fold(lines(content));
    flush(ps, cur)
}

fn cover_rule_exec(line: &[char]) -> (r: bool)
    ensures
        r == cover_rule(line@),
{
    let t = trim_exec(line);
    proof {
        crate::text::lemma_trim_len(line@);
    }
    let mut n: usize = 0;
    let mut ok = true;
    let mut i: usize = 0;
    while i < t.len()
        invariant
            i <= t.len(),
            n <= i,
            (n as nat, ok) == crate::search::parse::rule_scan(t@.take(i as int)),
        decreases t.len() - i,
    {
        assert(t@.take(i + 1).drop_last() =~= t@.take(i as int));
        let c = t[i];
        if !crate::text::is_white_space(c) {
            n += 1;
            ok = ok && (c == '-' || c == '*' || c == '_');
        }
        i += 1;
    }
    assert(t@.take(t.len() as int) =~= t@);
    let bytes = string_of(&t).as_str().len();
    bytes >= 3 && n > 0 && ok
}

fn cover_plain_exec(text: &[char]) -> (r: Vec<char>)
    ensures
        r@ == cover_plain(text@),
{
    proof {
        reveal_strlit("**");
    }
    let a = strip_all_exec(&Pat::Tag, text);
    let b = replace_exec(&a, "**", "");
    let c = unwrap_all_exec(&Pat::Em, &b);
    let d = unwrap_all_exec(&Pat::MdLink, &c);
    unwrap_all_exec(&Pat::Variant, &d)
}

fn make_paragraph_exec(text: &[char]) -> (p: Paragraph)
    ensures
        paragraph_view(p) == make_paragraph(text@),
{
    let plain = string_of(&cover_plain_exec(text));
    let len = plain.as_str().len();
    Paragraph {
        text: plain,
        len,
        has_bold: contains_exec(text, "**"),
        question_marks: count_char_exec(text, '?'),
        periods: count_char_exec(text, '.'),
    }
}

fn flush_exec(ps: &mut Vec<Paragraph>, cur: &Vec<char>)
    ensures
        final(ps)@.map_values(|p: Paragraph| paragraph_view(p)) == flush(
            old(ps)@.map_values(|p: Paragraph| paragraph_view(p)),
            cur@,
        ),
{
    if cur.len() > 0 {
        let p = make_paragraph_exec(cur);
        let ghost before = ps@;
        ps.push(p);
        assert(ps@.map_values(|p: Paragraph| paragraph_view(p)) =~= before.map_values(
            |p: Paragraph| paragraph_view(p),
        ).push(paragraph_view(p)));
    }
}

#[verifier::rlimit(40)]
fn para_step_exec(ps: &mut Vec<Paragraph>, cur: &mut Vec<char>, inside: &mut bool, in_math: &mut bool, l: &Vec<char>)
    ensures
        para_step(
            (old(ps)@.map_values(|p: Paragraph| paragraph_view(p)), old(cur)@, *old(inside), *old(in_math)),
            l@,
        ) == (final(ps)@.map_values(|p: Paragraph| paragraph_view(p)), final(cur)@, *final(inside), *final(in_math)),
{
    proof {
        reveal_strlit("<details>");
        reveal_strlit("</details>");
        reveal(para_step);
    }
    let t = trim_exec(l);
    if contains_exec(l, "<details") {
        *inside = true;
    } else if contains_exec(l, "</details>") {
        *inside = false;
    } else if *inside {
    } else if contains_exec(l, "<math") && contains_exec(l, "display=\"block\"") && !contains_exec(l, "</math>") {
        *in_math = true;
    } else if *in_math {
        if contains_exec(l, "</math>") {
            *in_math = false;
        }
    } else if starts_with_exec(l, "#") || cover_rule_exec(l) || t.len() == 0 {
        flush_exec(ps, cur);
        *cur = Vec::new();
    } else if starts_with_exec(&t, "<img ") || starts_with_exec(&t, "<summary")
        || starts_with_exec(&t, "</summary") || crate::text::chars_eq(&t, &chars_of("<details>"))
        || crate::text::chars_eq(&t, &chars_of("</details>")) {
    } else {
        if cur.len() > 0 {
            cur.push(' ');
        }
        push_all(cur, &t);
    }
}

/// Collect the paragraphs of a document (see `para_step`).
pub fn extract_paragraphs(content: &str) -> (r: Vec<Paragraph>)
    ensures
        r@.map_values(|p: Paragraph| paragraph_view(p)) == spec_paragraphs(content@),
{
    let ls = lines_exec(&chars_of(content));
    let mut ps: Vec<Paragraph> = Vec::new();
    let mut cur: Vec<char> = Vec::new();
    let mut inside = false;
    let mut in_math = false;
    let mut i: usize = 0;
    while i < ls.len()
        invariant
            i <= ls.len(),
            views(ls@) == lines(content@),
            para_fold(views(ls@).take(i as int)) == (
                ps@.map_values(|p: Paragraph| paragraph_view(p)),
                cur@,
                inside,
                in_math,
            ),
        decreases ls.len() - i,
    {
        assert(views(ls@).take(i + 1).drop_last() =~= views(ls@).take(i as int));
        assert(views(ls@)[i as int] == ls@[i as int]@);
        para_step_exec(&mut ps, &mut cur, &mut inside, &mut in_math, &ls[i]);
        i += 1;
    }
    assert(views(ls@).take(ls.len() as int) =~= views(ls@));
    flush_exec(&mut ps, &cur);
    ps
}

/// The subtitle of a document: the trimmed text of its first `<summary>` element.
pub fn extract_subtitle(content: &str) -> (r: Option<String>)
    ensures
        crate::search::parse::opt_view(r) == spec_subtitle(content@),
{
    let c = chars_of(content);
    match first_hit_exec(&Pat::Delim(Delimiter::Summary), &c, 0) {
        Some(h) => Some(string_of(&trim_exec(&slice_chars(&c, h.1, h.2)))),
        None => None,
    }
}

/// The cover text of a document: title (its first `# ` line, trimmed), subtitle and
/// paragraphs.
pub fn parse_for_cover(content: &str) -> (r: CoverData)
    ensures
        r.title@ == index_title(lines(content@)),
        crate::search::parse::opt_view(r.subtitle) == spec_subtitle(content@),
        r.paragraphs@.map_values(|p: Paragraph| paragraph_view(p)) == spec_paragraphs(content@),
{
    let ls = lines_exec(&chars_of(content));
    let mut title: Vec<char> = Vec::new();
    let mut i: usize = 0;
    assert(views(ls@).skip(0) =~= views(ls@));
    while i < ls.len()
        invariant_except_break
            title@ == Seq::<char>::empty(),
        invariant
            i <= ls.len(),
            views(ls@) == lines(content@),
            index_title(lines(content@)) == index_title(views(ls@).skip(i as int)),
        ensures
            title@ == index_title(lines(content@)),
        decreases ls.len() - i,
    {
        proof {
            reveal_strlit("# ");
        }
        assert(views(ls@).skip(i as int)[0] == ls@[i as int]@);
        assert(views(ls@).skip(i as int).drop_first() =~= views(ls@).skip(i + 1));
        if starts_with_exec(&ls[i], "# ") {
            let l = &ls[i];
            title = trim_exec(&slice_chars(l, 2, l.len()));
            assert(l@.subrange(2, l@.len() as int) =~= l@.skip(2));
            break;
        }
        i += 1;
        if i == ls.len() {
            assert(views(ls@).skip(i as int) =~= Seq::<Seq<char>>::empty());
        }
    }
    CoverData {
        title: string_of(&title),
        subtitle: extract_subtitle(content),
        paragraphs: extract_paragraphs(content),
    }
}

/// The part files of a work among the file names `names` (those starting with `stem`
/// and a hyphen and ending in `.md`), sorted, among the first `n`.
pub open spec fn part_files_fold(names: Seq<Seq<char>>, stem: Seq<char>, n: int) -> Seq<Seq<char>>
    decreases n,
{
    if n <= 0 {
        Seq::empty()
    } else {
        let rest = part_files_fold(names, stem, n - 1);
        let f = names[n - 1];
        if starts_with(f, stem + "-"@) && crate::text::ends_with(f, ".md"@) {
            crate::translate::verify::insert_sorted(rest, f)
        } else {
            rest
        }
    }
}

/// The files whose paragraphs a cover adds to those of the document `stem`: for a
/// work (`W-…`) with at most five paragraphs of its own, its part files `stem-….md`
/// in name order; for anything else none.
pub open spec fn spec_cover_parts(stem: Seq<char>, paragraph_count: nat, names: Seq<Seq<char>>) -> Seq<Seq<char>> {
    if paragraph_count <= 5 && starts_with(stem, "W-"@) {
        part_files_fold(names, stem, names.len() as int)
    } else {
        Seq::empty()
    }
}

/// The part files whose paragraphs the cover of `stem` takes as well, among the file
/// names of the input directory.
pub fn cover_parts(stem: &str, paragraph_count: usize, names: &[String]) -> (r: Vec<String>)
    ensures
        crate::translate::common::string_views(r@) == spec_cover_parts(
            stem@,
            paragraph_count as nat,
            crate::translate::common::string_views(names@),
        ),
{
    let mut out: Vec<String> = Vec::new();
    let s = chars_of(stem);
    if !(paragraph_count <= 5 && starts_with_exec(&s, "W-")) {
        return out;
    }
    let ghost nv = crate::translate::common::string_views(names@);
    let mut prefix = chars_of(stem);
    prefix.push('-');
    let md = chars_of(".md");
    assert(prefix@ =~= stem@ + "-"@) by {
        reveal_strlit("-");
    }
    let mut sorted: Vec<Vec<char>> = Vec::new();
    let mut k: usize = 0;
    while k < names.len()
        invariant
            k <= names.len(),
            nv == crate::translate::common::string_views(names@),
            prefix@ == stem@ + "-"@,
            md@ == ".md"@,
            views(sorted@) == part_files_fold(nv, stem@, k as int),
        decreases names.len() - k,
    {
        let f = chars_of(names[k].as_str());
        assert(nv[k as int] == f@);
        if crate::text::matches_at_exec(&f, &prefix, 0) && crate::text::ends_with_exec(&f, &md) {
            crate::translate::verify::insert_sorted_exec(&mut sorted, f);
        }
        k += 1;
    }
    let mut j: usize = 0;
    while j < sorted.len()
        invariant
            j <= sorted.len(),
            crate::translate::common::string_views(out@) == views(sorted@).take(j as int),
        decreases sorted.len() - j,
    {
        let ghost before = crate::translate::common::string_views(out@);
        let x = string_of(&sorted[j]);
        out.push(x);
        assert(crate::translate::common::string_views(out@) =~= before.push(x@));
        assert(views(sorted@).take(j + 1) =~= views(sorted@).take(j as int).push(views(sorted@)[j as int]));
        j += 1;
    }
    assert(views(sorted@).take(sorted.len() as int) =~= views(sorted@));
    out
}

} // verus!
