//! The index order of documents and works, and the assembly of translated works
//! from translated document remarks.
use vstd::prelude::*;
use crate::markup::{content, hits, hits_exec, spans_within, strip_all, strip_all_exec, sv, svs, Pat};
use crate::text::{
    chars_eq, chars_of, copy_chars, lines, lines_exec, matches_at, push_all, push_str, run_end,
    run_end_exec, slice_chars, starts_with, starts_with_exec, string_of, views, CharClass,
};
use crate::translate::common::{
    parse_document, remark_views, spec_anchor_from_doc_heading, spec_parse_document,
    anchor_from_doc_heading, lookup_last, string_views,
};

verus! {

/// Whether `name` is already among `seen`.
pub fn seen_in(seen: &Vec<Vec<char>>, name: &[char]) -> (r: bool)
    ensures
        r == views(seen@).contains(name@),
{
    let mut i: usize = 0;
    while i < seen.len()
        invariant
            i <= seen.len(),
            forall|k: int| 0 <= k < i ==> seen@[k]@ != name@,
        decreases seen.len() - i,
    {
        if chars_eq(&seen[i], name) {
            assert(views(seen@)[i as int] == name@);
            return true;
        }
        i += 1;
    }
    assert(!views(seen@).contains(name@)) by {
        if views(seen@).contains(name@) {
            let k = choose|k: int| 0 <= k < views(seen@).len() && views(seen@)[k] == name@;
            assert(seen@[k]@ == name@);
        }
    }
    false
}

/// The documents and the works linked from an index, each listed once, in the order
/// of first mention; works are the files whose names start with `W-`.
pub open spec fn index_fold(s: Seq<char>, hs: Seq<crate::markup::Span>) -> (Seq<Seq<char>>, Seq<Seq<char>>, Seq<Seq<char>>)
    decreases hs.len(),
{
    if hs.len() == 0 {
        (Seq::empty(), Seq::empty(), Seq::empty())
    } else {
        let (docs, works, seen) = index_fold(s, hs.drop_last());
        let name = content(s, hs.last());
        if seen.contains(name) {
            (docs, works, seen)
        } else if starts_with(name, "W-"@) {
            (docs, works.push(name), seen.push(name))
        } else {
            (docs.push(name), works, seen.push(name))
        }
    }
}

/// The documents and works of an index, in order.
pub open spec fn spec_parse_index_order(index: Seq<char>) -> (Seq<Seq<char>>, Seq<Seq<char>>) {
    let (d, w, _) = index_fold(index, hits(Pat::MdFile, index));
    (d, w)
}

/// Parse an index to get the file ordering, split into documents and works.
pub fn parse_index_order(index_content: &str) -> (r: (Vec<String>, Vec<String>))
    ensures
        (string_views(r.0@), string_views(r.1@)) == spec_parse_index_order(index_content@),
{
    let s = chars_of(index_content);
    let hs = hits_exec(&Pat::MdFile, &s);
    let mut docs: Vec<String> = Vec::new();
    let mut works: Vec<String> = Vec::new();
    let mut seen: Vec<Vec<char>> = Vec::new();
    let mut i: usize = 0;
    while i < hs.len()
        invariant
            i <= hs.len(),
            s@ == index_content@,
            svs(hs@) == hits(Pat::MdFile, s@),
            spans_within(hs@, s.len() as int),
            (string_views(docs@), string_views(works@), views(seen@)) == index_fold(
                s@,
                svs(hs@).take(i as int),
            ),
        decreases hs.len() - i,
    {
        proof {
            assert(svs(hs@).take(i + 1).drop_last() =~= svs(hs@).take(i as int));
            assert(svs(hs@).take(i + 1).last() == sv(hs@[i as int]));
        }
        let h = hs[i];
        let name = slice_chars(&s, h.1, h.2);
        if !seen_in(&seen, &name) {
            let ghost sb = seen@;
            if starts_with_exec(&name, "W-") {
                let ghost wb = works@;
                works.push(string_of(&name));
                assert(string_views(works@) =~= string_views(wb).push(name@));
            } else {
                let ghost db = docs@;
                docs.push(string_of(&name));
                assert(string_views(docs@) =~= string_views(db).push(name@));
            }
            seen.push(name);
            assert(views(seen@) =~= views(sb).push(name@));
        }
        i += 1;
    }
    assert(svs(hs@).take(hs.len() as int) =~= svs(hs@));
    (docs, works)
}

/// The work files of a directory listing, in listing order: names starting with `W-`
/// and ending with `.md`.
pub open spec fn is_work_file(name: Seq<char>) -> bool {
    starts_with(name, "W-"@) && crate::text::ends_with(name, ".md"@)
}

/// The work files (`W-….md`) among `names`, in byte order, each once.
pub open spec fn sorted_work_files(names: Seq<Seq<char>>) -> Seq<Seq<char>>
    decreases names.len(),
{
    if names.len() == 0 {
        Seq::empty()
    } else {
        let rest = sorted_work_files(names.drop_last());
        if is_work_file(names.last()) {
            crate::translate::verify::insert_sorted(rest, names.last())
        } else {
            rest
        }
    }
}

/// The work files taken from a listing are in byte order, each once: all work files
/// of the listing and nothing else.
pub proof fn lemma_work_files_sorted(names: Seq<Seq<char>>)
    ensures
        crate::translate::verify::sorted_texts(sorted_work_files(names)),
        forall|k: int|
            0 <= k < names.len() && is_work_file(#[trigger] names[k]) ==> sorted_work_files(names).contains(
                names[k],
            ),
        forall|k: int|
            0 <= k < sorted_work_files(names).len() ==> is_work_file(#[trigger] sorted_work_files(names)[k])
                && names.contains(sorted_work_files(names)[k]),
    decreases names.len(),
{
    if names.len() > 0 {
        let pre = names.drop_last();
        let n = names.last();
        lemma_work_files_sorted(pre);
        let rest = sorted_work_files(pre);
        let r = sorted_work_files(names);
        if is_work_file(n) {
            crate::translate::verify::lemma_insert_sorted_sorted(rest, n);
            crate::translate::verify::lemma_insert_sorted_contents(rest, n);
        }
        assert forall|k: int| 0 <= k < names.len() && is_work_file(#[trigger] names[k]) implies r.contains(names[k]) by {
            if k < names.len() - 1 {
                assert(pre[k] == names[k]);
                assert(rest.contains(pre[k]));
                if is_work_file(n) {
                    let m = choose|m: int| 0 <= m < rest.len() && rest[m] == pre[k];
                    assert(rest[m] == pre[k]);
                }
            }
        }
        assert forall|k: int| 0 <= k < r.len() implies is_work_file(#[trigger] r[k]) && names.contains(r[k]) by {
            if is_work_file(n) && r[k] == n {
                assert(names[names.len() - 1] == n);
            } else {
                assert(rest.contains(r[k]));
                let m = choose|m: int| 0 <= m < rest.len() && rest[m] == r[k];
                assert(is_work_file(rest[m]) && pre.contains(rest[m]));
                let q = choose|q: int| 0 <= q < pre.len() && pre[q] == rest[m];
                assert(names[q] == pre[q]);
            }
        }
    }
}

/// The works with their part files: for each work (first listing kept), the work
/// itself and then each work file of `on_disk` whose name starts with the work's name
/// (without `.md`) and a hyphen, in byte order, each file listed once.
pub open spec fn expand_fold(works: Seq<Seq<char>>, on_disk: Seq<Seq<char>>) -> (Seq<Seq<char>>, Seq<Seq<char>>)
    decreases works.len(),
{
    if works.len() == 0 {
        (Seq::empty(), Seq::empty())
    } else {
        let (r, seen) = expand_fold(works.drop_last(), on_disk);
        let w = works.last();
        let prefix = crate::text::trim_end_matches(w, ".md"@).push('-');
        let (r1, s1) = if seen.contains(w) {
            (r, seen)
        } else {
            (r.push(w), seen.push(w))
        };
        parts_fold(sorted_work_files(on_disk), prefix, r1, s1)
    }
}

/// Adds the work files of `names` that start with `prefix` and were not seen yet.
pub open spec fn parts_fold(
    names: Seq<Seq<char>>,
    prefix: Seq<char>,
    r: Seq<Seq<char>>,
    seen: Seq<Seq<char>>,
) -> (Seq<Seq<char>>, Seq<Seq<char>>)
    decreases names.len(),
{
    if names.len() == 0 {
        (r, seen)
    } else {
        let (r1, s1) = parts_fold(names.drop_last(), prefix, r, seen);
        let n = names.last();
        if is_work_file(n) && starts_with(n, prefix) && !s1.contains(n) {
            (r1.push(n), s1.push(n))
        } else {
            (r1, s1)
        }
    }
}

/// Expand a list of top-level work files to include their split-work part files, with
/// `on_disk` the input directory's file names: a part file `W-<root>-….md` belongs to
/// the work `W-<root>.md`. The top-level file is kept first (in the order of `works`),
/// its parts follow in byte order.
pub fn expand_work_parts(works: &[String], on_disk: &[String]) -> (r: Vec<String>)
    ensures
        string_views(r@) == expand_fold(string_views(works@), string_views(on_disk@)).0,
{
    let ghost wv = string_views(works@);
    let ghost nv = string_views(on_disk@);
    let md = chars_of(".md");
    let mut sorted: Vec<Vec<char>> = Vec::new();
    let mut j: usize = 0;
    while j < on_disk.len()
        invariant
            j <= on_disk.len(),
            nv == string_views(on_disk@),
            md@ == ".md"@,
            views(sorted@) == sorted_work_files(nv.take(j as int)),
        decreases on_disk.len() - j,
    {
        assert(nv.take(j + 1).drop_last() =~= nv.take(j as int));
        let n = chars_of(on_disk[j].as_str());
        assert(nv.take(j + 1).last() == n@);
        if starts_with_exec(&n, "W-") && crate::text::ends_with_exec(&n, &md) {
            crate::translate::verify::insert_sorted_exec(&mut sorted, n);
        }
        j += 1;
    }
    assert(nv.take(on_disk.len() as int) =~= nv);
    let ghost dv = views(sorted@);
    let mut result: Vec<String> = Vec::new();
    let mut seen: Vec<Vec<char>> = Vec::new();
    let mut i: usize = 0;
    while i < works.len()
        invariant
            i <= works.len(),
            wv == string_views(works@),
            nv == string_views(on_disk@),
            dv == views(sorted@),
            dv == sorted_work_files(nv),
            md@ == ".md"@,
            (string_views(result@), views(seen@)) == expand_fold(wv.take(i as int), nv),
        decreases works.len() - i,
    {
        proof {
            assert(wv.take(i + 1).drop_last() =~= wv.take(i as int));
        }
        let w = chars_of(works[i].as_str());
        let mut prefix = crate::text::trim_end_matches_exec(&w, &md);
        prefix.push('-');
        if !seen_in(&seen, &w) {
            let ghost rb = result@;
            let ghost sb = seen@;
            result.push(string_of(&w));
            seen.push(copy_chars(&w));
            assert(string_views(result@) =~= string_views(rb).push(w@));
            assert(views(seen@) =~= views(sb).push(w@));
        }
        let ghost r1 = string_views(result@);
        let ghost s1 = views(seen@);
        let mut k: usize = 0;
        while k < sorted.len()
            invariant
                k <= sorted.len(),
                dv == views(sorted@),
                md@ == ".md"@,
                (string_views(result@), views(seen@)) == parts_fold(dv.take(k as int), prefix@, r1, s1),
            decreases sorted.len() - k,
        {
            proof {
                assert(dv.take(k + 1).drop_last() =~= dv.take(k as int));
            }
            let n = copy_chars(&sorted[k]);
            if starts_with_exec(&n, "W-") && crate::text::ends_with_exec(&n, &md) && matches_at_prefix(&n, &prefix)
                && !seen_in(&seen, &n) {
                let ghost rb = result@;
                let ghost sb = seen@;
                result.push(string_of(&n));
                seen.push(copy_chars(&n));
                assert(string_views(result@) =~= string_views(rb).push(n@));
                assert(views(seen@) =~= views(sb).push(n@));
            }
            k += 1;
        }
        proof {
            assert(dv.take(sorted.len() as int) =~= dv);
        }
        i += 1;
    }
    proof {
        assert(wv.take(works.len() as int) =~= wv);
    }
    result
}

fn matches_at_prefix(s: &[char], prefix: &[char]) -> (r: bool)
    ensures
        r == starts_with(s@, prefix@),
{
    crate::text::matches_at_exec(s, prefix, 0)
}

/// The source document name of a heading `### [Ms-172](…)`: letters, a hyphen, digits
/// and lowercase letters between `### [` and `]`.
pub open spec fn heading_doc_name_end(line: Seq<char>) -> Option<int> {
    if starts_with(line, "### ["@) {
        let p1 = run_end(line, 5, CharClass::AsciiLetter);
        if p1 > 5 && p1 < line.len() && line[p1] == '-' {
            let p2 = run_end(line, p1 + 1, CharClass::Digit);
            if p2 > p1 + 1 {
                let p3 = run_end(line, p2, CharClass::AsciiLower);
                if p3 < line.len() && line[p3] == ']' {
                    Some(p3)
                } else {
                    None
                }
            } else {
                None
            }
        } else {
            None
        }
    } else {
        None
    }
}

fn heading_doc_name_end_exec(line: &[char]) -> (r: Option<usize>)
    ensures
        r matches Some(p) ==> heading_doc_name_end(line@) == Some(p as int) && 5 <= p < line.len(),
        r is None ==> heading_doc_name_end(line@) is None,
{
    if !starts_with_exec(line, "### [") {
        return None;
    }
    proof {
        reveal_strlit("### [");
    }
    let p1 = run_end_exec(line, 5, &CharClass::AsciiLetter);
    if p1 > 5 && p1 < line.len() && line[p1] == '-' {
        let p2 = run_end_exec(line, p1 + 1, &CharClass::Digit);
        if p2 > p1 + 1 {
            let p3 = run_end_exec(line, p2, &CharClass::AsciiLower);
            if p3 < line.len() && line[p3] == ']' {
                Some(p3)
            } else {
                None
            }
        } else {
            None
        }
    } else {
        None
    }
}

/// The source documents named by the remark headings of a work, each once, in order
/// of first mention, as file names (`Ms-172.md`).
pub open spec fn source_docs_fold(ls: Seq<Seq<char>>) -> Seq<Seq<char>>
    decreases ls.len(),
{
    if ls.len() == 0 {
        Seq::empty()
    } else {
        let docs = source_docs_fold(ls.drop_last());
        let line = ls.last();
        match heading_doc_name_end(line) {
            Some(p) => {
                let name = line.subrange(5, p) + ".md"@;
                if docs.contains(name) {
                    docs
                } else {
                    docs.push(name)
                }
            },
            None => docs,
        }
    }
}

/// Extract the unique source document file names referenced by a work's content.
/// Work headings look like `### [Ms-172](/ms-172/#...): ...`.
pub fn work_source_docs(content: &str) -> (r: Vec<String>)
    ensures
        string_views(r@) == source_docs_fold(lines(content@)),
{
    let text = chars_of(content);
    let ls = lines_exec(&text);
    let mut docs: Vec<Vec<char>> = Vec::new();
    let mut i: usize = 0;
    while i < ls.len()
        invariant
            i <= ls.len(),
            views(ls@) == lines(content@),
            views(docs@) == source_docs_fold(views(ls@).take(i as int)),
        decreases ls.len() - i,
    {
        proof {
            assert(views(ls@).take(i + 1).drop_last() =~= views(ls@).take(i as int));
            assert(views(ls@).take(i + 1).last() == ls@[i as int]@);
        }
        match heading_doc_name_end_exec(&ls[i]) {
            Some(p) => {
                let mut name = slice_chars(&ls[i], 5, p);
                push_str(&mut name, ".md");
                if !seen_in(&docs, &name) {
                    let ghost before = docs@;
                    docs.push(name);
                    assert(views(docs@) =~= views(before).push(name@));
                }
            },
            None => {},
        }
        i += 1;
    }
    assert(views(ls@).take(ls.len() as int) =~= views(ls@));
    let mut out: Vec<String> = Vec::new();
    let mut k: usize = 0;
    while k < docs.len()
        invariant
            k <= docs.len(),
            string_views(out@) == views(docs@).take(k as int),
        decreases docs.len() - k,
    {
        let ghost before = out@;
        out.push(string_of(&docs[k]));
        assert(string_views(out@) =~= string_views(before).push(docs@[k as int]@));
        assert(views(docs@).take(k + 1) =~= views(docs@).take(k as int).push(docs@[k as int]@));
        k += 1;
    }
    assert(views(docs@).take(docs.len() as int) =~= views(docs@));
    out
}

/// The document name and anchor of a work remark heading
/// `### [Ms-172](/ms-172/#1.1)`: the anchor follows the last `/#` before the first `)`.
pub open spec fn spec_parse_work_heading(h: Seq<char>) -> Option<(Seq<char>, Seq<char>)> {
    match heading_doc_name_end(h) {
        Some(p3) => if matches_at(h, "(/"@, p3 + 1) {
            match crate::text::find_char(h, ')', p3 + 3) {
                Some(k) => match crate::text::last_match(h, "/#"@, p3 + 4, k - 1) {
                    Some(m) => if m + 2 < k {
                        Some((h.subrange(5, p3), h.subrange(m + 2, k)))
                    } else {
                        None
                    },
                    None => None,
                },
                None => None,
            }
        } else {
            None
        },
        None => None,
    }
}

/// Extract the document name and anchor from a work remark heading, e.g.
/// `### [Ms-172](/ms-172/#1.1): ...` gives `("Ms-172", "1.1")`.
pub fn parse_work_heading(heading: &str) -> (r: Option<(String, String)>)
    ensures
        r matches Some((d, a)) ==> spec_parse_work_heading(heading@) == Some((d@, a@)),
        r is None ==> spec_parse_work_heading(heading@) is None,
{
    let h = chars_of(heading);
    match heading_doc_name_end_exec(&h) {
        Some(p3) => {
            let open = chars_of("(/");
            proof {
                reveal_strlit("(/");
            }
            if crate::text::matches_at_exec(&h, &open, p3 + 1) {
                match crate::text::find_char_exec(&h, ')', p3 + 3) {
                    Some(k) => {
                        proof {
                            crate::text::lemma_find_char(h@, ')', p3 + 3);
                        }
                        let sl = chars_of("/#");
                        proof {
                            reveal_strlit("/#");
                        }
                        match crate::text::last_match_exec(&h, &sl, p3 + 4, k - 1) {
                            Some(m) => if m + 2 < k {
                                Some((string_of(&slice_chars(&h, 5, p3)), string_of(&slice_chars(&h, m + 2, k))))
                            } else {
                                None
                            },
                            None => None,
                        }
                    },
                    None => None,
                }
            } else {
                None
            }
        },
        None => None,
    }
}

/// The `(doc#anchor, body)` entries of a translated document: one per remark with a
/// non-empty anchor, in order.
pub open spec fn url_entries(doc_name: Seq<char>, rs: Seq<(Seq<char>, Seq<char>)>) -> Seq<(Seq<char>, Seq<char>)>
    decreases rs.len(),
{
    if rs.len() == 0 {
        Seq::empty()
    } else {
        let rest = url_entries(doc_name, rs.drop_last());
        let a = spec_anchor_from_doc_heading(rs.last().0);
        if a.len() == 0 {
            rest
        } else {
            rest.push((doc_name + "#"@ + a, rs.last().1))
        }
    }
}

/// The pairs of a string-pair vector, as text.
pub open spec fn pair_views(v: Seq<(String, String)>) -> Seq<(Seq<char>, Seq<char>)> {
    v.map_values(|e: (String, String)| (e.0@, e.1@))
}

/// The lookup entries `DocName#anchor -> translated remark body` of one translated
/// document (name without `.md`, and its content). A map built by inserting the
/// entries of all documents in order gives what `build_remark_url_map` builds.
pub fn remark_url_entries(doc_name: &str, content: &str) -> (r: Vec<(String, String)>)
    ensures
        pair_views(r@) == url_entries(doc_name@, spec_parse_document(content@).1),
{
    let (_, remarks) = parse_document(content);
    let ghost rv = remark_views(remarks@);
    let mut out: Vec<(String, String)> = Vec::new();
    let mut i: usize = 0;
    while i < remarks.len()
        invariant
            i <= remarks.len(),
            rv == remark_views(remarks@),
            pair_views(out@) == url_entries(doc_name@, rv.take(i as int)),
        decreases remarks.len() - i,
    {
        proof {
            assert(rv.take(i + 1).drop_last() =~= rv.take(i as int));
        }
        let a = chars_of(&anchor_from_doc_heading(remarks[i].heading.as_str()));
        if a.len() > 0 {
            let mut key = chars_of(doc_name);
            key.push('#');
            push_all(&mut key, &a);
            let body = chars_of(remarks[i].body.as_str());
            let ghost before = out@;
            out.push((string_of(&key), string_of(&body)));
            assert(pair_views(out@) =~= pair_views(before).push((key@, body@)));
            assert(key@ =~= doc_name@ + "#"@ + a@) by {
                reveal_strlit("#");
            }
        }
        i += 1;
    }
    assert(rv.take(remarks.len() as int) =~= rv);
    out
}

/// The end of the leading run of series-number spans of `s` from `i`.
pub open spec fn series_prefix_end(s: Seq<char>, i: int) -> int
    decreases s.len() - i,
{
    match crate::markup::hit(Pat::SeriesSpan, s, i) {
        Some(h) => if h.0 > i {
            series_prefix_end(s, h.0)
        } else {
            i
        },
        None => i,
    }
}

/// The translated body for a work remark: the work's own leading series numbers, then
/// the translated document body with all its series numbers removed.
pub open spec fn assembled_body(work_body: Seq<char>, doc_body: Seq<char>) -> Seq<char> {
    work_body.subrange(0, series_prefix_end(work_body, 0)) + strip_all(Pat::SeriesSpan, doc_body)
}

/// The key `doc#anchor` of a work remark heading, or the empty text.
pub open spec fn work_key(heading: Seq<char>) -> Seq<char> {
    match spec_parse_work_heading(heading) {
        Some((d, a)) => d + "#"@ + a,
        None => Seq::empty(),
    }
}

/// The assembled text of a work after some remarks, and the headings of the remarks
/// that had no translation (their German body is kept).
pub open spec fn assemble_fold(
    rs: Seq<(Seq<char>, Seq<char>)>,
    map: Seq<(Seq<char>, Seq<char>)>,
) -> (Seq<char>, Seq<Seq<char>>)
    decreases rs.len(),
{
    if rs.len() == 0 {
        (Seq::empty(), Seq::empty())
    } else {
        let (text, missing) = assemble_fold(rs.drop_last(), map);
        let (h, b) = rs.last();
        match lookup_last(map, work_key(h)) {
            Some(doc_body) => (text + remark_block(h, assembled_body(b, doc_body)), missing),
            None => (text + remark_block(h, b), missing.push(h)),
        }
    }
}

/// The translated work text: the German work's preamble followed by each remark with
/// its heading and its assembled body; and the headings of the remarks left in German.
pub open spec fn spec_assemble_work(
    work: Seq<char>,
    map: Seq<(Seq<char>, Seq<char>)>,
) -> (Seq<char>, Seq<Seq<char>>) {
    let (pre, rs) = spec_parse_document(work);
    let (text, missing) = assemble_fold(rs, map);
    (pre + text, missing)
}

fn series_prefix_end_exec(s: &[char]) -> (r: usize)
    ensures
        r as int == series_prefix_end(s@, 0),
        r <= s.len(),
{
    let mut i: usize = 0;
    loop
        invariant
            i <= s.len(),
            series_prefix_end(s@, 0) == series_prefix_end(s@, i as int),
        decreases s.len() - i,
    {
        match crate::markup::hit_exec(&Pat::SeriesSpan, s, i) {
            Some(h) => {
                if h.0 > i {
                    i = h.0;
                } else {
                    return i;
                }
            },
            None => {
                return i;
            },
        }
    }
}

/// Looks up the last entry of `map` with key `key`.
pub fn lookup_pairs(map: &Vec<(String, String)>, key: &[char]) -> (r: Option<usize>)
    ensures
        r matches Some(k) ==> k < map.len() && lookup_last(pair_views(map@), key@) == Some(
            map@[k as int].1@,
        ),
        r is None ==> lookup_last(pair_views(map@), key@) is None,
{
    let ghost mv = pair_views(map@);
    let mut j = map.len();
    assert(mv.take(j as int) =~= mv);
    while j > 0
        invariant
            j <= map.len(),
            mv == pair_views(map@),
            lookup_last(mv, key@) == lookup_last(mv.take(j as int), key@),
        decreases j,
    {
        proof {
            assert(mv.take(j as int).drop_last() =~= mv.take(j - 1));
        }
        let k = chars_of(map[j - 1].0.as_str());
        if chars_eq(&k, key) {
            return Some(j - 1);
        }
        j -= 1;
    }
    None
}

/// Appends a remark (heading and body) in document form: a blank-line separated
/// heading and body, each after a line break.
pub open spec fn remark_block(h: Seq<char>, b: Seq<char>) -> Seq<char> {
    "\n"@ + h + "\n\n"@ + b + "\n"@
}

fn push_remark(text: &mut Vec<char>, h: &[char], b: &[char])
    ensures
        final(text)@ == old(text)@ + remark_block(h@, b@),
{
    push_str(text, "\n");
    push_all(text, h);
    push_str(text, "\n\n");
    push_all(text, b);
    push_str(text, "\n");
    assert(final(text)@ =~= old(text)@ + remark_block(h@, b@));
}

fn key_of_heading(heading: &str) -> (k: Vec<char>)
    ensures
        k@ == work_key(heading@),
{
    match parse_work_heading(heading) {
        Some((d, a)) => {
            let mut k = chars_of(d.as_str());
            k.push('#');
            push_all(&mut k, &chars_of(a.as_str()));
            assert(k@ =~= d@ + "#"@ + a@) by {
                reveal_strlit("#");
            }
            k
        },
        None => Vec::new(),
    }
}

fn assembled_body_exec(b: &[char], doc_body: &[char]) -> (r: Vec<char>)
    ensures
        r@ == assembled_body(b@, doc_body@),
{
    let p = series_prefix_end_exec(b);
    let mut out = slice_chars(b, 0, p);
    let rest = strip_all_exec(&Pat::SeriesSpan, doc_body);
    push_all(&mut out, &rest);
    out
}

/// Assemble a translated work from translated document remarks. `url_map` holds the
/// `DocName#anchor -> body` entries (a later entry overrides an earlier one with the
/// same key). Returns the work text and the headings of the remarks that found no
/// translation and keep their German body.
pub fn assemble_work(work_content: &str, url_map: &Vec<(String, String)>) -> (r: (String, Vec<String>))
    ensures
        (r.0@, string_views(r.1@)) == spec_assemble_work(work_content@, pair_views(url_map@)),
{
    let (preamble, remarks) = parse_document(work_content);
    let ghost rv = remark_views(remarks@);
    let ghost mv = pair_views(url_map@);
    let mut text: Vec<char> = chars_of(preamble.as_str());
    let ghost pre = text@;
    let mut missing: Vec<String> = Vec::new();
    let mut i: usize = 0;
    while i < remarks.len()
        invariant
            i <= remarks.len(),
            rv == remark_views(remarks@),
            mv == pair_views(url_map@),
            text@ == pre + assemble_fold(rv.take(i as int), mv).0,
            string_views(missing@) == assemble_fold(rv.take(i as int), mv).1,
        decreases remarks.len() - i,
    {
        proof {
            assert(rv.take(i + 1).drop_last() =~= rv.take(i as int));
        }
        let h = chars_of(remarks[i].heading.as_str());
        let b = chars_of(remarks[i].body.as_str());
        let key = key_of_heading(remarks[i].heading.as_str());
        let ghost t0 = text@;
        match lookup_pairs(url_map, &key) {
            Some(k) => {
                let doc_body = chars_of(url_map[k].1.as_str());
                let body = assembled_body_exec(&b, &doc_body);
                push_remark(&mut text, &h, &body);
            },
            None => {
                push_remark(&mut text, &h, &b);
                let ghost mb = missing@;
                missing.push(string_of(&h));
                assert(string_views(missing@) =~= string_views(mb).push(h@));
            },
        }
        proof {
            assert(remark_block(h@, b@) =~= "\n"@ + h@ + "\n\n"@ + b@ + "\n"@);
        }
        i += 1;
    }
    assert(rv.take(remarks.len() as int) =~= rv);
    (string_of(&text), missing)
}

} // verus!
