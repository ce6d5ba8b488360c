//! Heading anchors as Hugo/Goldmark generates them (GitHub style): lowercase,
//! drop every character that is not a letter, number, space or hyphen, turn
//! runs of spaces and hyphens into a single hyphen and trim leading and
//! trailing hyphens.
use vstd::prelude::*;
use crate::text::{
    alphanumeric, char_lowercase, chars_of, is_alphanumeric, lowercase_of_char, push_all, replace,
    replace_exec, string_of,
};

verus! {

/// The characters emitted for an alphanumeric character, after a possibly
/// pending hyphen.
pub open spec fn slug_emit(out: Seq<char>, pending: bool, piece: Seq<char>) -> Seq<char> {
    (if pending && out.len() > 0 {
        out.push('-')
    } else {
        out
    }) + piece
}

/// The slug built so far and whether a hyphen is pending, after reading `s`.
pub open spec fn slug_state(s: Seq<char>) -> (Seq<char>, bool)
    decreases s.len(),
{
    if s.len() == 0 {
        (Seq::empty(), false)
    } else {
        let (out, pending) = slug_state(s.drop_last());
        let c = s.last();
        if alphanumeric(c) {
            (slug_emit(out, pending, char_lowercase(c)), false)
        } else if c == ' ' || c == '-' {
            (out, true)
        } else {
            (out, pending)
        }
    }
}

/// The GitHub-style anchor slug of `text`.
pub open spec fn spec_github_slug(text: Seq<char>) -> Seq<char> {
    slug_state(text).0
}

/// GitHub-style anchor slug, matching Hugo's default heading-ID generation.
pub fn github_slug(text: &str) -> (r: String)
    ensures
        r@ == spec_github_slug(text@),
{
    let s = chars_of(text);
    let mut out: Vec<char> = Vec::new();
    let mut pending = false;
    let mut i: usize = 0;
    while i < s.len()
        invariant
            i <= s.len(),
            s@ == text@,
            (out@, pending) == slug_state(s@.take(i as int)),
        decreases s.len() - i,
    {
        let c = s[i];
        assert(s@.take(i + 1).drop_last() =~= s@.take(i as int));
        if is_alphanumeric(c) {
            if pending && out.len() > 0 {
                out.push('-');
            }
            pending = false;
            let low = lowercase_of_char(c);
            push_all(&mut out, &low);
        } else if c == ' ' || c == '-' {
            pending = true;
        }
        i += 1;
    }
    assert(s@.take(s.len() as int) =~= s@);
    string_of(&out)
}

/// `label` with its escaped brackets `\[` and `\]` turned back into `[` and `]`.
pub open spec fn spec_unescape_label(label: Seq<char>) -> Seq<char> {
    replace(replace(label, "\\["@, "["@), "\\]"@, "]"@)
}

/// Undo the Markdown bracket-escaping used in facsimile labels (`1r\[2\]` -> `1r[2]`).
pub fn unescape_label(label: &str) -> (r: String)
    ensures
        r@ == spec_unescape_label(label@),
{
    let v = unescape_chars(&chars_of(label));
    string_of(&v)
}

/// `unescape_label` on a character vector.
pub fn unescape_chars(label: &[char]) -> (r: Vec<char>)
    ensures
        r@ == spec_unescape_label(label@),
{
    proof {
        reveal_strlit("\\[");
        reveal_strlit("\\]");
    }
    let a = replace_exec(label, "\\[", "[");
    replace_exec(&a, "\\]", "]")
}

/// No slug starts with a hyphen: a hyphen is only written between two emitted pieces.
pub proof fn lemma_slug_no_leading_hyphen(text: Seq<char>)
    ensures
        spec_github_slug(text).len() > 0 ==> spec_github_slug(text)[0] != '-' || (exists|i: int|
            0 <= i < text.len() && alphanumeric(text[i]) && char_lowercase(text[i]).len() > 0
                && char_lowercase(text[i])[0] == '-'),
    decreases text.len(),
{
    if text.len() > 0 {
        let pre = text.drop_last();
        lemma_slug_no_leading_hyphen(pre);
        let (out, pending) = slug_state(pre);
        let c = text.last();
        if out.len() > 0 {
            if out[0] == '-' {
                let i = choose|i: int|
                    0 <= i < pre.len() && alphanumeric(pre[i]) && char_lowercase(pre[i]).len()
                        > 0 && char_lowercase(pre[i])[0] == '-';
                assert(text[i] == pre[i]);
            }
        } else if alphanumeric(c) {
            if char_lowercase(c).len() > 0 && char_lowercase(c)[0] == '-' {
                assert(text[text.len() - 1] == c);
            }
        }
    }
}

/// Every character of a slug is a hyphen or comes from the lowercase form of an
/// alphanumeric character of the text: everything else is dropped.
pub proof fn lemma_slug_alphabet(text: Seq<char>, k: int)
    requires
        0 <= k < spec_github_slug(text).len(),
    ensures
        spec_github_slug(text)[k] == '-' || exists|
            i: int,
            j: int,
        |
            0 <= i < text.len() && alphanumeric(text[i]) && 0 <= j < char_lowercase(text[i]).len()
                && char_lowercase(text[i])[j] == spec_github_slug(text)[k],
    decreases text.len(),
{
    let pre = text.drop_last();
    let (out, pending) = slug_state(pre);
    let c = text.last();
    let r = spec_github_slug(text);
    if k < out.len() && r[k] == out[k] {
        lemma_slug_alphabet(pre, k);
        if r[k] != '-' {
            let (i, j) = choose|i: int, j: int|
                0 <= i < pre.len() && alphanumeric(pre[i]) && 0 <= j < char_lowercase(
                    pre[i],
                ).len() && char_lowercase(pre[i])[j] == out[k];
            assert(text[i] == pre[i]);
        }
    } else if alphanumeric(c) {
        let base = if pending && out.len() > 0 {
            out.push('-')
        } else {
            out
        };
        assert(r == base + char_lowercase(c));
        if k >= base.len() {
            assert(text[text.len() - 1] == c);
            assert(r[k] == char_lowercase(c)[k - base.len()]);
        } else {
            assert(k == out.len());
        }
    }
}

} // verus!
