//! Preparing documents and multi-part works as Markdown for the ebook converter.
use vstd::prelude::*;
use crate::pdfs::prepare::{
    drop_blank_prefix, front_matter, front_matter_exec, index_title, is_blank_line,
};
use crate::text::{
    before_first, before_first_exec, chars_eq, chars_of, contains, contains_exec, copy_chars,
    ends_with, find_char, find_char_exec, find_from, find_from_exec, lines, lines_exec, matches_at,
    matches_at_exec, push_all, push_str, replace, replace_exec, slice_chars, starts_with,
    starts_with_exec, str_lowercase, string_of, trim, trim_end_matches, trim_exec, views,
};
use crate::translate::common::string_views;

verus! {

/// Markdown ready for the converter, with its title.
pub struct PreparedMarkdown {
    pub title: String,
    pub content: String,
}

/// A part of a multi-part work: its chapter name and page slug.
pub struct Part {
    pub chapter_name: String,
    pub slug: String,
}

/// A part as `(chapter name, slug)`.
pub open spec fn part_view(p: Part) -> (Seq<char>, Seq<char>) {
    (p.chapter_name@, p.slug@)
}

// ---------------------------------------------------------------------------
// Parent works
// ---------------------------------------------------------------------------

/// A part link line `- [text](/slug/)`: its text and slug.
pub open spec fn part_link(l: Seq<char>) -> Option<(Seq<char>, Seq<char>)> {
    if starts_with(l, "- ["@) {
        match find_char(l, ']', 3) {
            Some(q) => if q > 3 && matches_at(l, "](/"@, q) {
                match find_char(l, '/', q + 3) {
                    Some(k) => if k > q + 3 && k < l.len() && l.len() - k == 2 && l[k + 1] == ')' {
                        Some((l.subrange(3, q), l.subrange(q + 3, k)))
                    } else {
                        None
                    },
                    None => None,
                }
            } else {
                None
            },
            None => None,
        }
    } else {
        None
    }
}

/// The chapter name in a link text: the piece after the first ` – ` (up to a second
/// one), or the whole text.
pub open spec fn chapter_name(text: Seq<char>) -> Seq<char> {
    match find_from(text, " – "@, 0) {
        Some(p) => before_first(text.skip(p + 3), " – "@),
        None => text,
    }
}

/// The state while reading a parent work: title, parts, inside `<details>`, and
/// whether a line was found that makes it no parent.
pub type ParentState = (Seq<char>, Seq<(Seq<char>, Seq<char>)>, bool, bool);

/// Reads one line of a possible parent work.
pub open spec fn parent_step(st: ParentState, l: Seq<char>) -> ParentState {
    let (title, parts, inside, failed) = st;
    if failed {
        st
    } else if title.len() == 0 && starts_with(l, "# "@) {
        (trim(l.skip(2)), parts, inside, failed)
    } else if contains(l, "<details"@) {
        (title, parts, true, failed)
    } else if contains(l, "</details>"@) {
        (title, parts, false, failed)
    } else if inside || trim(l).len() == 0 {
        st
    } else {
        match part_link(l) {
            Some((text, slug)) => (title, parts.push((chapter_name(text), slug)), inside, failed),
            None => (title, parts, inside, true),
        }
    }
}

/// The state after reading the lines `ls`.
pub open spec fn parent_fold(ls: Seq<Seq<char>>) -> ParentState
    decreases ls.len(),
{
    if ls.len() == 0 {
        (Seq::empty(), Seq::empty(), false, false)
    } else {
        parent_step(parent_fold(ls.drop_last()), ls.last())
    }
}

/// The title and parts of a parent work: a file whose lines outside `<details>`
/// blocks, apart from the title and blank lines, are all part links, at least two.
pub open spec fn spec_detect_parent(raw: Seq<char>) -> Option<(Seq<char>, Seq<(Seq<char>, Seq<char>)>)> {
    let (title, parts, _inside, failed) = parent_fold(lines(raw));
    if !failed && parts.len() >= 2 {
        Some((title, parts))
    } else {
        None
    }
}

fn part_link_exec(l: &[char]) -> (r: Option<(Vec<char>, Vec<char>)>)
    ensures
        match r {
            Some((t, s)) => part_link(l@) == Some((t@, s@)),
            None => part_link(l@) is None,
        },
{
    proof {
        reveal_strlit("- [");
        reveal_strlit("](/");
    }
    if !starts_with_exec(l, "- [") {
        return None;
    }
    assert(l.len() >= 3);
    proof {
        crate::text::lemma_find_char(l@, ']', 3);
    }
    match find_char_exec(l, ']', 3) {
        Some(q) => {
            let m = chars_of("](/");
            if q > 3 && matches_at_exec(l, &m, q) {
                assert(m@.len() == 3);
                assert(q + 3 <= l.len());
                proof {
                    crate::text::lemma_find_char(l@, '/', q + 3);
                }
                match find_char_exec(l, '/', q + 3) {
                    Some(k) => if k > q + 3 && k < l.len() && l.len() - k == 2 && l[k + 1] == ')' {
                        Some((slice_chars(l, 3, q), slice_chars(l, q + 3, k)))
                    } else {
                        None
                    },
                    None => None,
                }
            } else {
                None
            }
        },
        None => None,
    }
}

fn chapter_name_exec(text: &[char]) -> (r: Vec<char>)
    ensures
        r@ == chapter_name(text@),
{
    let sep = chars_of(" – ");
    match find_from_exec(text, &sep, 0) {
        Some(p) => {
            proof {
                crate::text::lemma_find_from(text@, sep@, 0);
                reveal_strlit(" – ");
            }
            assert(sep@.len() == 3);
            assert(p + 3 <= text.len());
            let rest = slice_chars(text, p + 3, text.len());
            assert(rest@ =~= text@.skip(p + 3));
            before_first_exec(&rest, " – ")
        },
        None => copy_chars(text),
    }
}

/// Check if a Markdown file is a parent work (only links to parts); returns its title
/// and parts if so.
pub fn detect_parent(raw: &str) -> (r: Option<(String, Vec<Part>)>)
    ensures
        match r {
            Some((t, ps)) => spec_detect_parent(raw@) == Some(
                (t@, ps@.map_values(|p: Part| part_view(p))),
            ),
            None => spec_detect_parent(raw@) is None,
        },
{
    let ls = lines_exec(&chars_of(raw));
    let mut title: Vec<char> = Vec::new();
    let mut parts: Vec<Part> = Vec::new();
    let mut inside = false;
    let mut i: usize = 0;
    while i < ls.len()
        invariant
            i <= ls.len(),
            views(ls@) == lines(raw@),
            parent_fold(views(ls@).take(i as int)) == (
                title@,
                parts@.map_values(|p: Part| part_view(p)),
                inside,
                false,
            ),
        decreases ls.len() - i,
    {
        proof {
            reveal_strlit("# ");
        }
        assert(views(ls@).take(i + 1).drop_last() =~= views(ls@).take(i as int));
        assert(views(ls@)[i as int] == ls@[i as int]@);
        let l = &ls[i];
        if title.len() == 0 && starts_with_exec(l, "# ") {
            title = trim_exec(&slice_chars(l, 2, l.len()));
            assert(l@.subrange(2, l@.len() as int) =~= l@.skip(2));
        } else if contains_exec(l, "<details") {
            inside = true;
        } else if contains_exec(l, "</details>") {
            inside = false;
        } else if inside || is_blank_line(l) {
        } else {
            match part_link_exec(l) {
                Some((text, slug)) => {
                    let p = Part { chapter_name: string_of(&chapter_name_exec(&text)), slug: string_of(&slug) };
                    let ghost before = parts@;
                    parts.push(p);
                    assert(parts@.map_values(|p: Part| part_view(p)) =~= before.map_values(
                        |p: Part| part_view(p),
                    ).push(part_view(p)));
                },
                None => {
                    proof {
                        lemma_failed_stays(views(ls@), i as int + 1);
                    }
                    return None;
                },
            }
        }
        i += 1;
    }
    assert(views(ls@).take(ls.len() as int) =~= views(ls@));
    if parts.len() >= 2 {
        Some((string_of(&title), parts))
    } else {
        None
    }
}

/// Once a line shows that a file is no parent work, it stays so.
proof fn lemma_failed_stays(ls: Seq<Seq<char>>, n: int)
    requires
        0 < n <= ls.len(),
        parent_fold(ls.take(n)).3,
    ensures
        parent_fold(ls).3,
    decreases ls.len() - n,
{
    if n == ls.len() {
        assert(ls.take(n) =~= ls);
    } else {
        assert(ls.take(n + 1).drop_last() =~= ls.take(n));
        lemma_failed_stays(ls, n + 1);
    }
}

// ---------------------------------------------------------------------------
// Part files and bodies
// ---------------------------------------------------------------------------

/// The file among `names` for a page slug: the first `.md` file whose name without its
/// `.md` endings matches the slug, ignoring case.
pub open spec fn slug_file(slug: Seq<char>, names: Seq<Seq<char>>) -> Option<Seq<char>>
    decreases names.len(),
{
    if names.len() == 0 {
        None
    } else {
        let n = names[0];
        if ends_with(n, ".md"@) && str_lowercase(trim_end_matches(n, ".md"@)) == str_lowercase(slug) {
            Some(n)
        } else {
            slug_file(slug, names.drop_first())
        }
    }
}

/// Find the file of a page slug such as `w-rfm-1-app-1` among the file names of a
/// directory.
pub fn slug_to_filename(slug: &str, names: &[String]) -> (r: Option<String>)
    ensures
        opt_view(r) == slug_file(slug@, string_views(names@)),
{
    let target = crate::text::lowercase(&chars_of(slug));
    let md = chars_of(".md");
    let ghost nv = string_views(names@);
    let mut i: usize = 0;
    assert(nv.skip(0) =~= nv);
    while i < names.len()
        invariant
            i <= names.len(),
            md@ == ".md"@,
            target@ == str_lowercase(slug@),
            nv == string_views(names@),
            slug_file(slug@, nv) == slug_file(slug@, nv.skip(i as int)),
        decreases names.len() - i,
    {
        assert(nv.skip(i as int)[0] == names@[i as int]@);
        assert(nv.skip(i as int).drop_first() =~= nv.skip(i + 1));
        let n = chars_of(names[i].as_str());
        if crate::text::ends_with_exec(&n, &md) {
            let stem = crate::text::trim_end_matches_exec(&n, &md);
            let low = crate::text::lowercase(&stem);
            if chars_eq(&low, &target) {
                return Some(string_of(&n));
            }
        }
        i += 1;
    }
    None
}

/// The text of an optional string.
pub open spec fn opt_view(o: Option<String>) -> Option<Seq<char>> {
    match o {
        Some(s) => Some(s@),
        None => None,
    }
}

/// The state while reading a part body: whether the title was found, inside
/// `<details>`, lines kept.
pub type BodyState = (bool, bool, Seq<Seq<char>>);

/// A page-reference heading: `### [` followed by a facsimile link, plain or wrapped in
/// a `<span class="fac">`.
pub open spec fn page_heading(l: Seq<char>) -> bool {
    starts_with(l, "### ["@) || starts_with(l, "### <span class=\"fac\">["@)
}

/// Whether `l` is a page-reference heading.
pub fn is_page_heading(l: &[char]) -> (b: bool)
    ensures
        b == page_heading(l@),
{
    starts_with_exec(l, "### [") || starts_with_exec(l, "### <span class=\"fac\">[")
}

/// Reads one line: the first `# ` line, `<details>` blocks and page-reference headings
/// are dropped.
pub open spec fn body_step(st: BodyState, l: Seq<char>) -> BodyState {
    let (found, inside, out) = st;
    if !found && starts_with(l, "# "@) {
        (true, inside, out)
    } else if contains(l, "<details"@) {
        (found, true, out)
    } else if contains(l, "</details>"@) {
        (found, false, out)
    } else if inside || page_heading(l) {
        st
    } else {
        (found, inside, out.push(l))
    }
}

/// The state after reading the lines `ls`.
pub open spec fn body_fold(ls: Seq<Seq<char>>) -> BodyState
    decreases ls.len(),
{
    if ls.len() == 0 {
        (false, false, Seq::empty())
    } else {
        body_step(body_fold(ls.drop_last()), ls.last())
    }
}

/// The lines, with graphics paths pointing to the cropped versions, each followed by a
/// line break.
pub open spec fn cropped_text(ls: Seq<Seq<char>>) -> Seq<char>
    decreases ls.len(),
{
    if ls.len() == 0 {
        Seq::empty()
    } else {
        cropped_text(ls.drop_last()) + replace(ls.last(), "../graphics/"@, "../graphics-cropped/"@)
            + "\n"@
    }
}

/// The body of a part: its lines without title, `<details>` blocks and page headings,
/// and without leading blank lines.
pub open spec fn spec_prepare_body(raw: Seq<char>) -> Seq<char> {
    cropped_text(drop_blank_prefix(body_fold(lines(raw)).2))
}

/// Prepare a single part's body (no front matter, no title heading).
pub fn prepare_body(raw: &str) -> (r: String)
    ensures
        r@ == spec_prepare_body(raw@),
{
    let ls = lines_exec(&chars_of(raw));
    let mut found = false;
    let mut inside = false;
    let mut out: Vec<Vec<char>> = Vec::new();
    let mut i: usize = 0;
    while i < ls.len()
        invariant
            i <= ls.len(),
            views(ls@) == lines(raw@),
            body_fold(views(ls@).take(i as int)) == (found, inside, views(out@)),
        decreases ls.len() - i,
    {
        assert(views(ls@).take(i + 1).drop_last() =~= views(ls@).take(i as int));
        assert(views(ls@)[i as int] == ls@[i as int]@);
        let l = &ls[i];
        if !found && starts_with_exec(l, "# ") {
            found = true;
        } else if contains_exec(l, "<details") {
            inside = true;
        } else if contains_exec(l, "</details>") {
            inside = false;
        } else if inside || is_page_heading(l) {
        } else {
            let ghost before = out@;
            let c = copy_chars(l);
            out.push(c);
            assert(views(out@) =~= views(before).push(c@));
        }
        i += 1;
    }
    assert(views(ls@).take(ls.len() as int) =~= views(ls@));
    let ghost body = views(out@);
    let mut k: usize = 0;
    assert(body.skip(0) =~= body);
    while k < out.len() && is_blank_line(&out[k])
        invariant
            k <= out.len(),
            body == views(out@),
            drop_blank_prefix(body) == drop_blank_prefix(body.skip(k as int)),
        decreases out.len() - k,
    {
        assert(body.skip(k as int)[0] == out@[k as int]@);
        assert(body.skip(k as int).drop_first() =~= body.skip(k + 1));
        k += 1;
    }
    if k < out.len() {
        assert(body.skip(k as int)[0] == out@[k as int]@);
    }
    let mut content: Vec<char> = Vec::new();
    let mut m: usize = k;
    proof {
        reveal_strlit("../graphics/");
        reveal_strlit("\n");
        assert(body.skip(k as int).take(0) =~= Seq::<Seq<char>>::empty());
    }
    while m < out.len()
        invariant
            k <= m <= out.len(),
            body == views(out@),
            content@ == cropped_text(body.skip(k as int).take(m - k)),
        decreases out.len() - m,
    {
        proof {
            reveal_strlit("../graphics/");
            reveal_strlit("\n");
        }
        assert(body.skip(k as int).take(m - k + 1).drop_last() =~= body.skip(k as int).take(m - k));
        assert(body.skip(k as int).take(m - k + 1).last() == out@[m as int]@);
        let r = replace_exec(&out[m], "../graphics/", "../graphics-cropped/");
        push_all(&mut content, &r);
        content.push('\n');
        m += 1;
    }
    assert(body.skip(k as int).take(out.len() - k) =~= body.skip(k as int));
    string_of(&content)
}

/// Prepare a merged multi-part work: front matter, then each part as a chapter `# name`
/// followed by its body.
pub open spec fn merged_text(parts: Seq<(Seq<char>, Seq<char>)>) -> Seq<char>
    decreases parts.len(),
{
    if parts.len() == 0 {
        Seq::empty()
    } else {
        merged_text(parts.drop_last()) + "# "@ + parts.last().0 + "\n\n"@ + parts.last().1 + "\n"@
    }
}

/// Prepare a merged multi-part work for the ebook converter.
pub fn prepare_merged(title: &str, parts: &[(String, String)], author: &str) -> (r: PreparedMarkdown)
    ensures
        r.title@ == title@,
        r.content@ == front_matter(title@, author@) + merged_text(
            parts@.map_values(|p: (String, String)| (p.0@, p.1@)),
        ),
{
    let mut content = front_matter_exec(title, author);
    let ghost fm = content@;
    let ghost pv = parts@.map_values(|p: (String, String)| (p.0@, p.1@));
    let mut i: usize = 0;
    while i < parts.len()
        invariant
            i <= parts.len(),
            pv == parts@.map_values(|p: (String, String)| (p.0@, p.1@)),
            content@ == fm + merged_text(pv.take(i as int)),
        decreases parts.len() - i,
    {
        assert(pv.take(i + 1).drop_last() =~= pv.take(i as int));
        assert(pv[i as int] == (parts@[i as int].0@, parts@[i as int].1@));
        push_str(&mut content, "# ");
        push_str(&mut content, parts[i].0.as_str());
        push_str(&mut content, "\n\n");
        push_str(&mut content, parts[i].1.as_str());
        push_str(&mut content, "\n");
        assert(content@ =~= fm + merged_text(pv.take(i + 1)));
        i += 1;
    }
    assert(pv.take(parts.len() as int) =~= pv);
    PreparedMarkdown { title: string_of(&chars_of(title)), content: string_of(&content) }
}

/// The title and content of a prepared single document.
pub open spec fn spec_prepare(raw: Seq<char>, author: Seq<char>) -> (Seq<char>, Seq<char>) {
    let title = index_title(lines(raw));
    (title, front_matter(title, author) + spec_prepare_body(raw))
}

/// Prepare a Markdown file for the ebook converter: front matter, then the body
/// without `<details>` blocks and page-reference headings.
pub fn prepare(raw: &str, author: &str) -> (r: PreparedMarkdown)
    ensures
        (r.title@, r.content@) == spec_prepare(raw@, author@),
{
    let ls = lines_exec(&chars_of(raw));
    let mut title: Vec<char> = Vec::new();
    let mut i: usize = 0;
    assert(views(ls@).skip(0) =~= views(ls@));
    while i < ls.len()
        invariant_except_break
            title@ == Seq::<char>::empty(),
        invariant
            i <= ls.len(),
            views(ls@) == lines(raw@),
            index_title(lines(raw@)) == index_title(views(ls@).skip(i as int)),
        ensures
            title@ == index_title(lines(raw@)),
        decreases ls.len() - i,
    {
        proof {
            reveal_strlit("# ");
        }
        assert(views(ls@).skip(i as int)[0] == ls@[i as int]@);
        assert(views(ls@).skip(i as int).drop_first() =~= views(ls@).skip(i + 1));
        if starts_with_exec(&ls[i], "# ") {
            let l = &ls[i];
            title = trim_exec(&slice_chars(l, 2, l.len()));
            assert(l@.subrange(2, l@.len() as int) =~= l@.skip(2));
            break;
        }
        i += 1;
        if i == ls.len() {
            assert(views(ls@).skip(i as int) =~= Seq::<Seq<char>>::empty());
        }
    }
    let t = string_of(&title);
    let body = prepare_body(raw);
    let mut content = front_matter_exec(t.as_str(), author);
    push_str(&mut content, body.as_str());
    PreparedMarkdown { title: t, content: string_of(&content) }
}

} // verus!
