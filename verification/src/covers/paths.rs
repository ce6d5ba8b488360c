//! The title layer of a cover: the path groups that the text-to-path conversion
//! produced, reduced to what the cover needs.
use vstd::prelude::*;
use crate::text::{
    chars_of, contains, contains_exec, find_char, find_char_exec, find_from, find_from_exec, last_match,
    last_match_exec, push_all, push_str, slice_chars, starts_with, starts_with_exec, string_of, trim, trim_exec,
};

verus! {

/// The value of the first `fill:` declaration among the `;`-separated parts from
/// `start` on, the part being read having begun at `start` and reached `i`.
pub open spec fn fill_from(style: Seq<char>, start: int, i: int) -> Option<Seq<char>>
    decreases style.len() - i,
{
    if i < start || i >= style.len() {
        part_fill(style.subrange(start, style.len() as int))
    } else if style[i] == ';' {
        match part_fill(style.subrange(start, i)) {
            Some(f) => Some(f),
            None => fill_from(style, i + 1, i + 1),
        }
    } else {
        fill_from(style, start, i + 1)
    }
}

/// The value of one declaration if it is a `fill:` declaration, trimmed.
pub open spec fn part_fill(part: Seq<char>) -> Option<Seq<char>> {
    let t = trim(part);
    if starts_with(t, "fill:"@) {
        Some(trim(t.skip(5)))
    } else {
        None
    }
}

/// The fill colour of a style attribute: its first `fill:` declaration.
pub open spec fn style_fill(style: Seq<char>) -> Option<Seq<char>> {
    fill_from(style, 0, 0)
}

/// The group for one label: the first `<path` in the group's text, with its `d`
/// attribute (the one preceded by a space) and the fill of its `style`, or nothing if
/// the group holds no such path.
pub open spec fn group_path(label: Seq<char>, group: Seq<char>) -> Seq<char> {
    match find_from(group, "<path"@, 0) {
        None => Seq::empty(),
        Some(ps) => {
            let region = group.skip(ps);
            match find_from(region, " d=\""@, 0) {
                None => Seq::empty(),
                Some(dp) => {
                    let ds = dp + 4;
                    let de = match find_char(region, '"', ds) {
                        Some(j) => j,
                        None => ds,
                    };
                    let fill = match find_from(region, "style=\""@, 0) {
                        None => None,
                        Some(sp) => match find_char(region, '"', sp + 7) {
                            None => None,
                            Some(se) => style_fill(region.subrange(sp + 7, se)),
                        },
                    };
                    "<g aria-label=\""@ + label + "\"><path d=\""@ + region.subrange(ds, de) + "\""@ + match fill {
                        Some(f) => " fill=\""@ + f + "\""@,
                        None => Seq::empty(),
                    } + "/></g>\n"@
                },
            }
        },
    }
}

/// The path groups from position `from` on: at each `aria-label=` whose tag (from the
/// last `<` before it) is a `<g`, the label (from the character after `aria-label=`'s
/// opening quote to the next `"`) and the text up to the next `</g>`.
pub open spec fn text_paths_from(svg: Seq<char>, from: int) -> Seq<char>
    decreases svg.len() - from,
{
    if from < 0 || from > svg.len() {
        Seq::empty()
    } else {
        proof {
            reveal_strlit("aria-label=");
            reveal_strlit("</g>");
            crate::text::lemma_find_from(svg, "aria-label="@, from);
        }
        match find_from(svg, "aria-label="@, from) {
            None => Seq::empty(),
            Some(abs) => {
                match last_match(svg, "<"@, 0, abs) {
                    None => text_paths_from(svg, abs + 1),
                    Some(t) => if !contains(svg.subrange(t, abs), "<g"@) {
                        text_paths_from(svg, abs + 1)
                    } else {
                        let ls = if abs + 12 <= svg.len() {
                            abs + 12
                        } else {
                            svg.len() as int
                        };
                        let le = match find_char(svg, '"', ls) {
                            Some(j) => j,
                            None => ls,
                        };
                        match find_from(svg, "</g>"@, le) {
                            None => text_paths_from(svg, abs + 1),
                            Some(ge) => {
                                proof {
                                    crate::text::lemma_find_char(svg, '"', ls);
                                    crate::text::lemma_find_from(svg, "</g>"@, le);
                                }
                                group_path(svg.subrange(ls, le), svg.subrange(le, ge)) + text_paths_from(
                                    svg,
                                    ge + 4,
                                )
                            },
                        }
                    },
                }
            },
        }
    }
}

fn style_fill_exec(style: &[char]) -> (r: Option<Vec<char>>)
    ensures
        r matches Some(f) ==> style_fill(style@) == Some(f@),
        r is None ==> style_fill(style@) is None,
{
    let mut start: usize = 0;
    let mut i: usize = 0;
    while i < style.len()
        invariant
            start <= i <= style.len(),
            style_fill(style@) == fill_from(style@, start as int, i as int),
        decreases style.len() - i,
    {
        if style[i] == ';' {
            let t = trim_exec(&slice_chars(style, start, i));
            if starts_with_exec(&t, "fill:") {
                proof {
                    reveal_strlit("fill:");
                }
                assert(t@.subrange(5, t@.len() as int) =~= t@.skip(5));
                return Some(trim_exec(&slice_chars(&t, 5, t.len())));
            }
            start = i + 1;
        }
        i += 1;
    }
    let t = trim_exec(&slice_chars(style, start, style.len()));
    if starts_with_exec(&t, "fill:") {
        proof {
            reveal_strlit("fill:");
        }
        assert(t@.subrange(5, t@.len() as int) =~= t@.skip(5));
        Some(trim_exec(&slice_chars(&t, 5, t.len())))
    } else {
        None
    }
}

fn group_path_exec(out: &mut Vec<char>, label: &[char], group: &[char])
    ensures
        final(out)@ == old(out)@ + group_path(label@, group@),
{
    let ps = match find_from_exec(group, &chars_of("<path"), 0) {
        Some(ps) => ps,
        None => return,
    };
    proof {
        crate::text::lemma_find_from(group@, "<path"@, 0);
    }
    let region = slice_chars(group, ps, group.len());
    assert(region@ =~= group@.skip(ps as int));
    let dp = match find_from_exec(&region, &chars_of(" d=\""), 0) {
        Some(dp) => dp,
        None => return,
    };
    proof {
        crate::text::lemma_find_from(region@, " d=\""@, 0);
        reveal_strlit(" d=\"");
    }
    let ds = dp + 4;
    let de = match find_char_exec(&region, '"', ds) {
        Some(j) => j,
        None => ds,
    };
    proof {
        crate::text::lemma_find_char(region@, '"', ds as int);
    }
    let fill: Option<Vec<char>> = match find_from_exec(&region, &chars_of("style=\""), 0) {
        None => None,
        Some(sp) => {
            proof {
                crate::text::lemma_find_from(region@, "style=\""@, 0);
                reveal_strlit("style=\"");
            }
            match find_char_exec(&region, '"', sp + 7) {
                None => None,
                Some(se) => {
                    proof {
                        crate::text::lemma_find_char(region@, '"', sp + 7);
                    }
                    style_fill_exec(&slice_chars(&region, sp + 7, se))
                },
            }
        },
    };
    let ghost o = old(out)@;
    push_str(out, "<g aria-label=\"");
    push_all(out, label);
    push_str(out, "\"><path d=\"");
    push_all(out, &slice_chars(&region, ds, de));
    push_str(out, "\"");
    match &fill {
        Some(f) => {
            push_str(out, " fill=\"");
            push_all(out, f);
            push_str(out, "\"");
        },
        None => {},
    }
    push_str(out, "/></g>\n");
    assert(out@ =~= o + group_path(label@, group@));
}

/// The path groups of the converted title layer, one line each: for every group whose
/// `aria-label` names a word, its first path with its `d` attribute and the fill of its
/// style (`<g aria-label="…"><path d="…" fill="…"/></g>`).
pub fn extract_text_paths(svg: &str) -> (r: String)
    ensures
        r@ == text_paths_from(svg@, 0),
{
    let s = chars_of(svg);
    let key = chars_of("aria-label=");
    let lt = chars_of("<");
    let close = chars_of("</g>");
    proof {
        reveal_strlit("aria-label=");
        reveal_strlit("<");
        reveal_strlit("</g>");
    }
    let mut out: Vec<char> = Vec::new();
    let mut from: usize = 0;
    while from <= s.len()
        invariant
            from <= s.len() + 1,
            s@ == svg@,
            key@ == "aria-label="@,
            lt@ == "<"@,
            close@ == "</g>"@,
            out@ + text_paths_from(s@, from as int) == text_paths_from(s@, 0),
        ensures
            out@ == text_paths_from(s@, 0),
        decreases s.len() + 1 - from,
    {
        proof {
            reveal_strlit("aria-label=");
            reveal_strlit("</g>");
        }
        let abs = match find_from_exec(&s, &key, from) {
            Some(a) => a,
            None => {
                assert(text_paths_from(s@, from as int) == Seq::<char>::empty());
                assert(out@ + Seq::<char>::empty() =~= out@);
                break;
            },
        };
        proof {
            crate::text::lemma_find_from(s@, key@, from as int);
        }
        let is_group = match last_match_exec(&s, &lt, 0, abs) {
            None => false,
            Some(t) => contains_exec(&slice_chars(&s, t, abs), "<g"),
        };
        if !is_group {
            from = abs + 1;
            continue;
        }
        let ls = if s.len() - abs >= 12 {
            abs + 12
        } else {
            s.len()
        };
        let le = match find_char_exec(&s, '"', ls) {
            Some(j) => j,
            None => ls,
        };
        proof {
            crate::text::lemma_find_char(s@, '"', ls as int);
        }
        match find_from_exec(&s, &close, le) {
            None => {
                from = abs + 1;
            },
            Some(ge) => {
                proof {
                    crate::text::lemma_find_from(s@, close@, le as int);
                }
                let ghost before = out@;
                group_path_exec(&mut out, &slice_chars(&s, ls, le), &slice_chars(&s, le, ge));
                assert(out@ + text_paths_from(s@, ge + 4) =~= before + (group_path(
                    s@.subrange(ls as int, le as int),
                    s@.subrange(le as int, ge as int),
                ) + text_paths_from(s@, ge + 4)));
                from = ge + 4;
            },
        }
    }
    proof {
        if from > s.len() {
            assert(out@ + Seq::<char>::empty() =~= out@);
        }
    }
    string_of(&out)
}

} // verus!
