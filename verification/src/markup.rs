//! The inline Markdown/HTML grammar of the transcriptions, as a set of token
//! patterns with a left-to-right, non-overlapping scanner.
//!
//! Each pattern says, for a start position, whether a token begins there, where
//! it ends, and which part of it is its content (and, for links, its target).
//! Replacing or listing tokens scans the text from the left: at each position a
//! token is taken if one begins there, otherwise one character is kept and the
//! scan moves on; after a token the scan resumes at its end.
use vstd::prelude::*;
use crate::text::{
    chars_of, find_char, find_char_exec, find_from, find_from_exec, matches_at, matches_at_exec,
    push_all, regex_word_char, is_regex_word_char, white_space, is_white_space,
};

verus! {

/// The inline token kinds of the transcription markup.
pub enum Pat {
    /// An HTML tag `<…>` with at least one character inside.
    Tag,
    /// Emphasis `_text_` (content: the text, no underscore inside).
    Em,
    /// Strong emphasis `**text**` (content: the text, no asterisk inside).
    Bold,
    /// `**text**` with the shortest text up to the next `**` on the same line.
    BoldLazy,
    /// Single-asterisk emphasis `*text*`.
    Star,
    /// A Markdown link `[text](target)` (content: the text; no `]` in it, no `)` in the target).
    MdLink,
    /// A reading variant `{primary // alternatives}` (content: the primary reading).
    Variant,
    /// Inline MathML `<math …>…</math>` where `<math` is followed by a non-word character.
    MathInline,
    /// MathML `<math>…</math>` or `<math …>…</math>`.
    MathBlock,
    /// A strikethrough `<s …>…</s>` where `<s` is followed by a non-word character.
    Strike,
    /// A parenthetical `(…)`.
    Paren,
    /// A parenthetical with the white space around it.
    ParenWs,
    /// A link whose text may hold backslash escapes such as `\[` (content: text; target: the
    /// non-empty target).
    LinkEsc,
    /// A link whose text may hold `\]`; a `]` ends the text unless a backslash precedes it and
    /// no target follows it.
    LinkAnchor,
    /// A link with the shortest text up to a `](` on the same line; the target may be empty.
    LinkLazy,
    /// A link to a work page: `[label](/w-…)`.
    WorkLink,
    /// A delimited span `open … close` with the shortest content on one line.
    Delim(Delimiter),
    /// An explicit heading id `{#id}` (content: the id; no `}` or white space in it).
    ExplicitId,
    /// A run of white space.
    Ws,
    /// An image `![alt](path)`.
    Image,
    /// A run of ASCII letters and German umlauts/ß.
    GermanWord,
    /// A link target naming a Markdown file: `](name.md)` (content: `name.md`).
    MdFile,
    /// A series number `<span class="series-number">N</span>` (no `<` in `N`) with the
    /// white space after it.
    SeriesSpan,
}

/// The opening of a series-number span.
pub const SERIES_OPEN: &'static str = "<span class=\"series-number\">";

/// The opening of a facsimile-reference span.
pub const FAC_OPEN: &'static str = "<span class=\"fac\">";

/// The delimited spans of the markup.
pub enum Delimiter {
    /// `<span class="fac">…</span>`: the facsimile references of a heading.
    FacSpan,
    /// `<span class="series-number">…</span>`: a published series number.
    SeriesNumber,
    /// `<summary>…</summary>`.
    Summary,
}

/// The opening text of a delimited span.
pub open spec fn delim_open(d: Delimiter) -> Seq<char> {
    match d {
        Delimiter::FacSpan => FAC_OPEN@,
        Delimiter::SeriesNumber => SERIES_OPEN@,
        Delimiter::Summary => "<summary>"@,
    }
}

/// The closing text of a delimited span.
pub open spec fn delim_close(d: Delimiter) -> Seq<char> {
    match d {
        Delimiter::FacSpan => "</span>"@,
        Delimiter::SeriesNumber => "</span>"@,
        Delimiter::Summary => "</summary>"@,
    }
}

/// The kinds of replacement.
pub enum RepKind {
    Drop,
    Group,
    Text,
    Wrap,
}

/// What to put in place of each token.
pub enum Rep {
    /// Nothing.
    Drop,
    /// The token's content.
    Group,
    /// A fixed text.
    Text(Vec<char>),
    /// The content between two fixed texts.
    Wrap(Vec<char>, Vec<char>),
}

/// A token: `(end, content_start, content_end, target_start, target_end)`.
pub type Span = (int, int, int, int, int);

/// No line break in `s[a..b]`.
pub open spec fn one_line(s: Seq<char>, a: int, b: int) -> bool {
    match find_char(s, '\n', a) {
        Some(n) => n >= b,
        None => true,
    }
}

/// The first index at or after `from` holding `a` or `b`.
pub open spec fn find_either(s: Seq<char>, a: char, b: char, from: int) -> Option<int>
    decreases s.len() - from,
{
    if from < 0 || from >= s.len() {
        None
    } else if s[from] == a || s[from] == b {
        Some(from)
    } else {
        find_either(s, a, b, from + 1)
    }
}

/// The end of the run of white space starting at `from`.
pub open spec fn ws_end(s: Seq<char>, from: int) -> int
    decreases s.len() - from,
{
    if from < 0 || from >= s.len() || !white_space(s[from]) {
        from
    } else {
        ws_end(s, from + 1)
    }
}

/// The end of the run of characters that are neither `}` nor white space, from `from`.
pub open spec fn id_end(s: Seq<char>, from: int) -> int
    decreases s.len() - from,
{
    if from < 0 || from >= s.len() || s[from] == '}' || white_space(s[from]) {
        from
    } else {
        id_end(s, from + 1)
    }
}

/// The letters of the German-word class: ASCII letters, umlauts and ß.
pub open spec fn german_letter(c: char) -> bool {
    ('a' <= c && c <= 'z') || ('A' <= c && c <= 'Z') || c == 'ä' || c == 'ö' || c == 'ü'
        || c == 'Ä' || c == 'Ö' || c == 'Ü' || c == 'ß'
}

/// The end of the run of German-word letters from `from`.
pub open spec fn word_end(s: Seq<char>, from: int) -> int
    decreases s.len() - from,
{
    if from < 0 || from >= s.len() || !german_letter(s[from]) {
        from
    } else {
        word_end(s, from + 1)
    }
}

/// A non-empty link target `(…)` right after index `q`: the index of its `)`.
pub open spec fn target_after(s: Seq<char>, q: int) -> Option<int> {
    if q + 1 < s.len() && s[q + 1] == '(' {
        match find_char(s, ')', q + 2) {
            Some(k) => if k > q + 2 {
                Some(k)
            } else {
                None
            },
            None => None,
        }
    } else {
        None
    }
}

/// The `]` closing a backslash-escaped link text that starts at `p`.
pub open spec fn esc_close(s: Seq<char>, p: int) -> Option<int>
    decreases s.len() - p,
{
    if p < 0 || p >= s.len() {
        None
    } else if s[p] == ']' {
        Some(p)
    } else if s[p] == '\\' {
        if p + 1 < s.len() && s[p + 1] != '\n' {
            esc_close(s, p + 2)
        } else {
            None
        }
    } else {
        esc_close(s, p + 1)
    }
}

/// For a link text whose `]` may be escaped: the first `]` at or after `q0` that is followed
/// by a target, passing over a `]` only when a backslash precedes it.
pub open spec fn anchor_close(s: Seq<char>, q0: int) -> Option<(int, int)>
    decreases s.len() - q0,
{
    if q0 < 0 || q0 >= s.len() {
        None
    } else {
        match find_char(s, ']', q0) {
            None => None,
            Some(q) => if q < q0 || q >= s.len() {
                None
            } else {
                match target_after(s, q) {
                    Some(k) => Some((q, k)),
                    None => if q >= 1 && s[q - 1] == '\\' {
                        anchor_close(s, q + 1)
                    } else {
                        None
                    },
                }
            },
        }
    }
}

/// The token of kind `p` beginning at index `i`, before the bounds check.
pub open spec fn raw_hit(p: Pat, s: Seq<char>, i: int) -> Option<Span> {
    match p {
        Pat::Tag => if s[i] == '<' {
            match find_char(s, '>', i + 1) {
                Some(j) => if j > i + 1 {
                    Some((j + 1, i + 1, j, i, i))
                } else {
                    None
                },
                None => None,
            }
        } else {
            None
        },
        Pat::Em => if s[i] == '_' {
            match find_char(s, '_', i + 1) {
                Some(j) => if j > i + 1 {
                    Some((j + 1, i + 1, j, i, i))
                } else {
                    None
                },
                None => None,
            }
        } else {
            None
        },
        Pat::Bold => if matches_at(s, "**"@, i) {
            match find_char(s, '*', i + 2) {
                Some(j) => if j > i + 2 && matches_at(s, "**"@, j) {
                    Some((j + 2, i + 2, j, i, i))
                } else {
                    None
                },
                None => None,
            }
        } else {
            None
        },
        Pat::BoldLazy => if matches_at(s, "**"@, i) {
            match find_from(s, "**"@, i + 3) {
                Some(k) => if one_line(s, i + 2, k) {
                    Some((k + 2, i + 2, k, i, i))
                } else {
                    None
                },
                None => None,
            }
        } else {
            None
        },
        Pat::Star => if s[i] == '*' {
            match find_char(s, '*', i + 1) {
                Some(j) => if j > i + 1 {
                    Some((j + 1, i + 1, j, i, i))
                } else {
                    None
                },
                None => None,
            }
        } else {
            None
        },
        Pat::MdLink => if s[i] == '[' {
            match find_char(s, ']', i + 1) {
                Some(q) => if q + 1 < s.len() && s[q + 1] == '(' {
                    match find_char(s, ')', q + 2) {
                        Some(k) => Some((k + 1, i + 1, q, q + 2, k)),
                        None => None,
                    }
                } else {
                    None
                },
                None => None,
            }
        } else {
            None
        },
        Pat::Variant => if s[i] == '{' {
            match find_either(s, '/', '}', i + 1) {
                Some(j) => if s[j] == '/' && j + 1 < s.len() && s[j + 1] == '/' {
                    match find_char(s, '}', j + 2) {
                        Some(k) => Some((k + 1, i + 1, j, i, i)),
                        None => None,
                    }
                } else {
                    None
                },
                None => None,
            }
        } else {
            None
        },
        Pat::MathInline => if matches_at(s, "<math"@, i) && i + 5 < s.len() && !regex_word_char(
            s[i + 5],
        ) {
            match find_from(s, "</math>"@, i + 5) {
                Some(k) => Some((k + 7, i, k + 7, i, i)),
                None => None,
            }
        } else {
            None
        },
        Pat::MathBlock => if matches_at(s, "<math"@, i) && i + 5 < s.len() && (white_space(
            s[i + 5],
        ) || s[i + 5] == '>') {
            match find_from(s, "</math>"@, i + 6) {
                Some(k) => Some((k + 7, i, k + 7, i, i)),
                None => None,
            }
        } else {
            None
        },
        Pat::Strike => if matches_at(s, "<s"@, i) && i + 2 < s.len() && !regex_word_char(
            s[i + 2],
        ) {
            match find_char(s, '>', i + 2) {
                Some(j) => match find_from(s, "</s>"@, j + 1) {
                    Some(k) => Some((k + 4, i, k + 4, i, i)),
                    None => None,
                },
                None => None,
            }
        } else {
            None
        },
        Pat::Paren => if s[i] == '(' {
            match find_char(s, ')', i + 1) {
                Some(j) => Some((j + 1, i, j + 1, i, i)),
                None => None,
            }
        } else {
            None
        },
        Pat::ParenWs => {
            let p = ws_end(s, i);
            if p < s.len() && s[p] == '(' {
                match find_char(s, ')', p + 1) {
                    Some(j) => Some((ws_end(s, j + 1), i, ws_end(s, j + 1), i, i)),
                    None => None,
                }
            } else {
                None
            }
        },
        Pat::LinkEsc => if s[i] == '[' {
            match esc_close(s, i + 1) {
                Some(q) => match target_after(s, q) {
                    Some(k) => Some((k + 1, i + 1, q, q + 2, k)),
                    None => None,
                },
                None => None,
            }
        } else {
            None
        },
        Pat::LinkAnchor => if s[i] == '[' {
            match anchor_close(s, i + 1) {
                Some((q, k)) => Some((k + 1, i + 1, q, q + 2, k)),
                None => None,
            }
        } else {
            None
        },
        Pat::LinkLazy => if s[i] == '[' {
            match find_from(s, "]("@, i + 1) {
                Some(q) => if one_line(s, i + 1, q) {
                    match find_char(s, ')', q + 2) {
                        Some(k) => Some((k + 1, i + 1, q, q + 2, k)),
                        None => None,
                    }
                } else {
                    None
                },
                None => None,
            }
        } else {
            None
        },
        Pat::WorkLink => if s[i] == '[' {
            match find_char(s, ']', i + 1) {
                Some(q) => if q > i + 1 && matches_at(s, "(/w-"@, q + 1) {
                    match find_char(s, ')', q + 5) {
                        Some(k) => if k > q + 5 {
                            Some((k + 1, i + 1, q, q + 2, k))
                        } else {
                            None
                        },
                        None => None,
                    }
                } else {
                    None
                },
                None => None,
            }
        } else {
            None
        },
        Pat::Delim(d) => if matches_at(s, delim_open(d), i) {
            match find_from(s, delim_close(d), i + delim_open(d).len()) {
                Some(k) => if one_line(s, i + delim_open(d).len(), k) {
                    Some((k + delim_close(d).len(), i + delim_open(d).len(), k, i, i))
                } else {
                    None
                },
                None => None,
            }
        } else {
            None
        },
        Pat::ExplicitId => if matches_at(s, "{#"@, i) && id_end(s, i + 2) > i + 2 {
            Some((id_end(s, i + 2), i + 2, id_end(s, i + 2), i, i))
        } else {
            None
        },
        Pat::Ws => if white_space(s[i]) {
            Some((ws_end(s, i), i, ws_end(s, i), i, i))
        } else {
            None
        },
        Pat::Image => if matches_at(s, "!["@, i) {
            match find_char(s, ']', i + 2) {
                Some(q) => match target_after(s, q) {
                    Some(k) => Some((k + 1, i, k + 1, q + 2, k)),
                    None => None,
                },
                None => None,
            }
        } else {
            None
        },
        Pat::GermanWord => if german_letter(s[i]) {
            Some((word_end(s, i), i, word_end(s, i), i, i))
        } else {
            None
        },
        Pat::SeriesSpan => if matches_at(s, SERIES_OPEN@, i) {
            match find_char(s, '<', i + SERIES_OPEN@.len()) {
                Some(j) => if j > i + SERIES_OPEN@.len() && matches_at(s, "</span>"@, j) {
                    Some((ws_end(s, j + 7), i + SERIES_OPEN@.len(), j, i, i))
                } else {
                    None
                },
                None => None,
            }
        } else {
            None
        },
        Pat::MdFile => if matches_at(s, "]("@, i) {
            match find_char(s, ')', i + 2) {
                Some(k) => if k - (i + 2) >= 4 && matches_at(s, ".md"@, k - 3) {
                    Some((k + 1, i + 2, k, i, i))
                } else {
                    None
                },
                None => None,
            }
        } else {
            None
        },
    }
}

/// Whether a span lies within `s` and ends after `i`.
pub open spec fn span_ok(s: Seq<char>, i: int, h: Span) -> bool {
    i < h.0 <= s.len() && i <= h.1 <= h.2 <= h.0 && i <= h.3 <= h.4 <= h.0
}

/// The token of kind `p` beginning at index `i`, if one does.
pub open spec fn hit(p: Pat, s: Seq<char>, i: int) -> Option<Span> {
    if 0 <= i < s.len() {
        match raw_hit(p, s, i) {
            Some(h) => if span_ok(s, i, h) {
                Some(h)
            } else {
                None
            },
            None => None,
        }
    } else {
        None
    }
}

/// The kind of an executable replacement.
pub open spec fn rep_kind(r: Rep) -> RepKind {
    match r {
        Rep::Drop => RepKind::Drop,
        Rep::Group => RepKind::Group,
        Rep::Text(_) => RepKind::Text,
        Rep::Wrap(_, _) => RepKind::Wrap,
    }
}

/// The first text of an executable replacement (the fixed text, or the text before the
/// content).
pub open spec fn rep_a(r: Rep) -> Seq<char> {
    match r {
        Rep::Text(t) => t@,
        Rep::Wrap(a, _) => a@,
        _ => Seq::empty(),
    }
}

/// The text after the content of a wrapping replacement.
pub open spec fn rep_b(r: Rep) -> Seq<char> {
    match r {
        Rep::Wrap(_, b) => b@,
        _ => Seq::empty(),
    }
}

/// The replacement text for a token: nothing, its content, the fixed text `a`, or its
/// content between `a` and `b`.
pub open spec fn rep_text(k: RepKind, a: Seq<char>, b: Seq<char>, s: Seq<char>, h: Span) -> Seq<char> {
    match k {
        RepKind::Drop => Seq::empty(),
        RepKind::Group => s.subrange(h.1, h.2),
        RepKind::Text => a,
        RepKind::Wrap => a + s.subrange(h.1, h.2) + b,
    }
}

/// `s` from index `i` on with every token of kind `p` replaced.
pub open spec fn replace_all_from(p: Pat, k: RepKind, a: Seq<char>, b: Seq<char>, s: Seq<char>, i: int) -> Seq<char>
    decreases s.len() - i,
{
    if i < 0 || i >= s.len() {
        Seq::empty()
    } else {
        match hit(p, s, i) {
            Some(h) => rep_text(k, a, b, s, h) + replace_all_from(p, k, a, b, s, h.0),
            None => seq![s[i]] + replace_all_from(p, k, a, b, s, i + 1),
        }
    }
}

/// `s` with every token of kind `p` replaced (`Regex::replace_all`).
pub open spec fn replace_all(p: Pat, k: RepKind, a: Seq<char>, b: Seq<char>, s: Seq<char>) -> Seq<char> {
    replace_all_from(p, k, a, b, s, 0)
}

/// `s` with every token of kind `p` removed.
pub open spec fn strip_all(p: Pat, s: Seq<char>) -> Seq<char> {
    replace_all(p, RepKind::Drop, Seq::empty(), Seq::empty(), s)
}

/// `s` with every token of kind `p` replaced by its content.
pub open spec fn unwrap_all(p: Pat, s: Seq<char>) -> Seq<char> {
    replace_all(p, RepKind::Group, Seq::empty(), Seq::empty(), s)
}

/// `s` with every token of kind `p` replaced by the text `t`.
pub open spec fn subst_all(p: Pat, t: Seq<char>, s: Seq<char>) -> Seq<char> {
    replace_all(p, RepKind::Text, t, Seq::empty(), s)
}

/// `s` with the content of every token of kind `p` put between `a` and `b`.
pub open spec fn wrap_all(p: Pat, a: Seq<char>, b: Seq<char>, s: Seq<char>) -> Seq<char> {
    replace_all(p, RepKind::Wrap, a, b, s)
}

/// The tokens of kind `p` found scanning from index `i` (`Regex::captures_iter`).
pub open spec fn hits_from(p: Pat, s: Seq<char>, i: int) -> Seq<Span>
    decreases s.len() - i,
{
    if i < 0 || i >= s.len() {
        Seq::empty()
    } else {
        match hit(p, s, i) {
            Some(h) => seq![h] + hits_from(p, s, h.0),
            None => hits_from(p, s, i + 1),
        }
    }
}

/// The tokens of kind `p` in `s`, left to right.
pub open spec fn hits(p: Pat, s: Seq<char>) -> Seq<Span> {
    hits_from(p, s, 0)
}

/// The first token of kind `p` at or after index `i` (`Regex::captures`).
pub open spec fn first_hit(p: Pat, s: Seq<char>, i: int) -> Option<Span>
    decreases s.len() - i,
{
    if i < 0 || i >= s.len() {
        None
    } else {
        match hit(p, s, i) {
            Some(h) => Some(h),
            None => first_hit(p, s, i + 1),
        }
    }
}

/// A span's content `s[content_start..content_end]`.
pub open spec fn content(s: Seq<char>, h: Span) -> Seq<char> {
    s.subrange(h.1, h.2)
}

/// A span's target `s[target_start..target_end]`.
pub open spec fn target(s: Seq<char>, h: Span) -> Seq<char> {
    s.subrange(h.3, h.4)
}

/// A span's whole text `s[start..end]` given its start.
pub open spec fn whole(s: Seq<char>, start: int, h: Span) -> Seq<char> {
    s.subrange(start, h.0)
}

/// An executable span.
pub type ExecSpan = (usize, usize, usize, usize, usize);

/// The spec view of an executable span.
pub open spec fn sv(h: ExecSpan) -> Span {
    (h.0 as int, h.1 as int, h.2 as int, h.3 as int, h.4 as int)
}

// ---------------------------------------------------------------------------
// Executable matchers
// ---------------------------------------------------------------------------

fn one_line_exec(s: &[char], a: usize, b: usize) -> (r: bool)
    ensures
        r == one_line(s@, a as int, b as int),
{
    match find_char_exec(s, '\n', a) {
        Some(n) => n >= b,
        None => true,
    }
}

fn find_either_exec(s: &[char], a: char, b: char, from: usize) -> (r: Option<usize>)
    ensures
        r matches Some(j) ==> find_either(s@, a, b, from as int) == Some(j as int) && j < s.len(),
        r is None ==> find_either(s@, a, b, from as int) is None,
{
    let mut i = from;
    while i < s.len()
        invariant
            from <= i,
            find_either(s@, a, b, from as int) == find_either(s@, a, b, i as int),
        decreases s.len() - i,
    {
        if s[i] == a || s[i] == b {
            return Some(i);
        }
        i += 1;
    }
    None
}

pub fn ws_end_exec(s: &[char], from: usize) -> (r: usize)
    requires
        from <= s.len(),
    ensures
        r == ws_end(s@, from as int),
        from <= r <= s.len(),
{
    let mut i = from;
    while i < s.len()
        invariant
            from <= i <= s.len(),
            ws_end(s@, from as int) == ws_end(s@, i as int),
        decreases s.len() - i,
    {
        if !is_white_space(s[i]) {
            return i;
        }
        i += 1;
    }
    i
}

fn id_end_exec(s: &[char], from: usize) -> (r: usize)
    requires
        from <= s.len(),
    ensures
        r == id_end(s@, from as int),
        from <= r <= s.len(),
{
    let mut i = from;
    while i < s.len()
        invariant
            from <= i <= s.len(),
            id_end(s@, from as int) == id_end(s@, i as int),
        decreases s.len() - i,
    {
        if s[i] == '}' || is_white_space(s[i]) {
            return i;
        }
        i += 1;
    }
    i
}

fn german_letter_exec(c: char) -> (r: bool)
    ensures
        r == german_letter(c),
{
    ('a' <= c && c <= 'z') || ('A' <= c && c <= 'Z') || c == 'ä' || c == 'ö' || c == 'ü'
        || c == 'Ä' || c == 'Ö' || c == 'Ü' || c == 'ß'
}

fn word_end_exec(s: &[char], from: usize) -> (r: usize)
    requires
        from <= s.len(),
    ensures
        r == word_end(s@, from as int),
        from <= r <= s.len(),
{
    let mut i = from;
    while i < s.len()
        invariant
            from <= i <= s.len(),
            word_end(s@, from as int) == word_end(s@, i as int),
        decreases s.len() - i,
    {
        if !german_letter_exec(s[i]) {
            return i;
        }
        i += 1;
    }
    i
}

proof fn lemma_find_char_bound(s: Seq<char>, c: char, from: int)
    ensures
        find_char(s, c, from) matches Some(j) ==> from <= j < s.len() && s[j] == c,
    decreases s.len() - from,
{
    if from < 0 || from >= s.len() {
    } else if s[from] == c {
    } else {
        lemma_find_char_bound(s, c, from + 1);
    }
}

proof fn lemma_find_from_bound(s: Seq<char>, pat: Seq<char>, from: int)
    ensures
        find_from(s, pat, from) matches Some(j) ==> from <= j && j + pat.len() <= s.len(),
    decreases s.len() - from,
{
    if from < 0 || from + pat.len() > s.len() {
    } else if matches_at(s, pat, from) {
    } else if pat.len() == 0 {
    } else {
        lemma_find_from_bound(s, pat, from + 1);
    }
}

fn find_char_b(s: &[char], c: char, from: usize) -> (r: Option<usize>)
    ensures
        r matches Some(j) ==> find_char(s@, c, from as int) == Some(j as int) && from <= j < s.len(),
        r is None ==> find_char(s@, c, from as int) is None,
{
    let r = find_char_exec(s, c, from);
    proof {
        lemma_find_char_bound(s@, c, from as int);
    }
    r
}

fn find_from_b(s: &[char], pat: &[char], from: usize) -> (r: Option<usize>)
    ensures
        r matches Some(j) ==> find_from(s@, pat@, from as int) == Some(j as int) && from <= j && j
            + pat.len() <= s.len(),
        r is None ==> find_from(s@, pat@, from as int) is None,
{
    let r = find_from_exec(s, pat, from);
    proof {
        lemma_find_from_bound(s@, pat@, from as int);
    }
    r
}

fn target_after_exec(s: &[char], q: usize) -> (r: Option<usize>)
    requires
        q < s.len(),
    ensures
        r matches Some(k) ==> target_after(s@, q as int) == Some(k as int) && k < s.len(),
        r is None ==> target_after(s@, q as int) is None,
{
    if q + 1 < s.len() && s[q + 1] == '(' {
        match find_char_b(s, ')', q + 2) {
            Some(k) => if k > q + 2 {
                Some(k)
            } else {
                None
            },
            None => None,
        }
    } else {
        None
    }
}

fn esc_close_exec(s: &[char], from: usize) -> (r: Option<usize>)
    ensures
        r matches Some(q) ==> esc_close(s@, from as int) == Some(q as int) && q < s.len(),
        r is None ==> esc_close(s@, from as int) is None,
{
    let mut p = from;
    while p < s.len()
        invariant
            esc_close(s@, from as int) == esc_close(s@, p as int),
        decreases s.len() - p,
    {
        if s[p] == ']' {
            return Some(p);
        } else if s[p] == '\\' {
            if p + 1 < s.len() && s[p + 1] != '\n' {
                p = p + 2;
            } else {
                return None;
            }
        } else {
            p = p + 1;
        }
    }
    None
}

fn anchor_close_exec(s: &[char], from: usize) -> (r: Option<(usize, usize)>)
    ensures
        r matches Some((q, k)) ==> anchor_close(s@, from as int) == Some((q as int, k as int)) && q
            < k < s.len(),
        r is None ==> anchor_close(s@, from as int) is None,
{
    let mut q0 = from;
    while q0 < s.len()
        invariant
            anchor_close(s@, from as int) == anchor_close(s@, q0 as int),
        decreases s.len() - q0,
    {
        match find_char_b(s, ']', q0) {
            None => return None,
            Some(q) => {
                match target_after_exec(s, q) {
                    Some(k) => {
                        return Some((q, k));
                    },
                    None => {
                        if q >= 1 && s[q - 1] == '\\' {
                            q0 = q + 1;
                        } else {
                            return None;
                        }
                    },
                }
            },
        }
    }
    None
}

/// The opening and closing texts of a delimited span.
fn delim_texts(d: &Delimiter) -> (r: (Vec<char>, Vec<char>))
    ensures
        r.0@ == delim_open(*d),
        r.1@ == delim_close(*d),
{
    match d {
        Delimiter::FacSpan => (chars_of(FAC_OPEN), chars_of("</span>")),
        Delimiter::SeriesNumber => (chars_of(SERIES_OPEN), chars_of("</span>")),
        Delimiter::Summary => (chars_of("<summary>"), chars_of("</summary>")),
    }
}

/// The token of kind `p` beginning at index `i`.
pub fn hit_exec(p: &Pat, s: &[char], i: usize) -> (r: Option<ExecSpan>)
    ensures
        r matches Some(h) ==> hit(*p, s@, i as int) == Some(sv(h)),
        r is None ==> hit(*p, s@, i as int) is None,
{
    if i >= s.len() {
        return None;
    }
    let raw = raw_hit_exec(p, s, i);
    match raw {
        Some(h) => {
            if i < h.0 && h.0 <= s.len() && i <= h.1 && h.1 <= h.2 && h.2 <= h.0 && i <= h.3 && h.3
                <= h.4 && h.4 <= h.0 {
                Some(h)
            } else {
                None
            }
        },
        None => None,
    }
}

fn raw_hit_exec(p: &Pat, s: &[char], i: usize) -> (r: Option<ExecSpan>)
    requires
        i < s.len(),
    ensures
        r matches Some(h) ==> raw_hit(*p, s@, i as int) == Some(sv(h)),
        r is None ==> raw_hit(*p, s@, i as int) is None,
{
    let star2 = chars_of("**");
    proof {
        reveal_strlit("**");
    }
    match p {
        Pat::Tag => if s[i] == '<' {
            match find_char_b(s, '>', i + 1) {
                Some(j) => if j > i + 1 {
                    Some((j + 1, i + 1, j, i, i))
                } else {
                    None
                },
                None => None,
            }
        } else {
            None
        },
        Pat::Em => if s[i] == '_' {
            match find_char_b(s, '_', i + 1) {
                Some(j) => if j > i + 1 {
                    Some((j + 1, i + 1, j, i, i))
                } else {
                    None
                },
                None => None,
            }
        } else {
            None
        },
        Pat::Bold => if matches_at_exec(s, &star2, i) {
            match find_char_b(s, '*', i + 2) {
                Some(j) => if j > i + 2 && matches_at_exec(s, &star2, j) {
                    Some((j + 2, i + 2, j, i, i))
                } else {
                    None
                },
                None => None,
            }
        } else {
            None
        },
        Pat::BoldLazy => if matches_at_exec(s, &star2, i) {
            let found = if i + 2 < s.len() {
                find_from_b(s, &star2, i + 3)
            } else {
                None
            };
            match found {
                Some(k) => if one_line_exec(s, i + 2, k) {
                    Some((k + 2, i + 2, k, i, i))
                } else {
                    None
                },
                None => None,
            }
        } else {
            None
        },
        Pat::Star => if s[i] == '*' {
            match find_char_b(s, '*', i + 1) {
                Some(j) => if j > i + 1 {
                    Some((j + 1, i + 1, j, i, i))
                } else {
                    None
                },
                None => None,
            }
        } else {
            None
        },
        Pat::MdLink => if s[i] == '[' {
            match find_char_b(s, ']', i + 1) {
                Some(q) => if q + 1 < s.len() && s[q + 1] == '(' {
                    match find_char_b(s, ')', q + 2) {
                        Some(k) => Some((k + 1, i + 1, q, q + 2, k)),
                        None => None,
                    }
                } else {
                    None
                },
                None => None,
            }
        } else {
            None
        },
        Pat::Variant => if s[i] == '{' {
            match find_either_exec(s, '/', '}', i + 1) {
                Some(j) => if s[j] == '/' && j + 1 < s.len() && s[j + 1] == '/' {
                    match find_char_b(s, '}', j + 2) {
                        Some(k) => Some((k + 1, i + 1, j, i, i)),
                        None => None,
                    }
                } else {
                    None
                },
                None => None,
            }
        } else {
            None
        },
        Pat::MathInline => {
            let open = chars_of("<math");
            let close = chars_of("</math>");
            proof {
                reveal_strlit("<math");
                reveal_strlit("</math>");
            }
            if matches_at_exec(s, &open, i) && i + 5 < s.len() && !is_regex_word_char(s[i + 5]) {
                match find_from_b(s, &close, i + 5) {
                    Some(k) => Some((k + 7, i, k + 7, i, i)),
                    None => None,
                }
            } else {
                None
            }
        },
        Pat::MathBlock => {
            let open = chars_of("<math");
            let close = chars_of("</math>");
            proof {
                reveal_strlit("<math");
                reveal_strlit("</math>");
            }
            if matches_at_exec(s, &open, i) && i + 5 < s.len() && (is_white_space(s[i + 5]) || s[i
                + 5] == '>') {
                match find_from_b(s, &close, i + 6) {
                    Some(k) => Some((k + 7, i, k + 7, i, i)),
                    None => None,
                }
            } else {
                None
            }
        },
        Pat::Strike => {
            let open = chars_of("<s");
            let close = chars_of("</s>");
            proof {
                reveal_strlit("<s");
                reveal_strlit("</s>");
            }
            if matches_at_exec(s, &open, i) && i + 2 < s.len() && !is_regex_word_char(s[i + 2]) {
                match find_char_b(s, '>', i + 2) {
                    Some(j) => match find_from_b(s, &close, j + 1) {
                        Some(k) => Some((k + 4, i, k + 4, i, i)),
                        None => None,
                    },
                    None => None,
                }
            } else {
                None
            }
        },
        Pat::Paren => if s[i] == '(' {
            match find_char_b(s, ')', i + 1) {
                Some(j) => Some((j + 1, i, j + 1, i, i)),
                None => None,
            }
        } else {
            None
        },
        Pat::ParenWs => {
            let q = ws_end_exec(s, i);
            if q < s.len() && s[q] == '(' {
                match find_char_b(s, ')', q + 1) {
                    Some(j) => {
                        let e = ws_end_exec(s, j + 1);
                        Some((e, i, e, i, i))
                    },
                    None => None,
                }
            } else {
                None
            }
        },
        Pat::LinkEsc => if s[i] == '[' {
            match esc_close_exec(s, i + 1) {
                Some(q) => match target_after_exec(s, q) {
                    Some(k) => Some((k + 1, i + 1, q, q + 2, k)),
                    None => None,
                },
                None => None,
            }
        } else {
            None
        },
        Pat::LinkAnchor => if s[i] == '[' {
            match anchor_close_exec(s, i + 1) {
                Some((q, k)) => Some((k + 1, i + 1, q, q + 2, k)),
                None => None,
            }
        } else {
            None
        },
        Pat::LinkLazy => if s[i] == '[' {
            let open = chars_of("](");
            proof {
                reveal_strlit("](");
            }
            match find_from_b(s, &open, i + 1) {
                Some(q) => if one_line_exec(s, i + 1, q) {
                    match find_char_b(s, ')', q + 2) {
                        Some(k) => Some((k + 1, i + 1, q, q + 2, k)),
                        None => None,
                    }
                } else {
                    None
                },
                None => None,
            }
        } else {
            None
        },
        Pat::WorkLink => if s[i] == '[' {
            let w = chars_of("(/w-");
            proof {
                reveal_strlit("(/w-");
            }
            match find_char_b(s, ']', i + 1) {
                Some(q) => if q > i + 1 && matches_at_exec(s, &w, q + 1) {
                    match find_char_b(s, ')', q + 5) {
                        Some(k) => if k > q + 5 {
                            Some((k + 1, i + 1, q, q + 2, k))
                        } else {
                            None
                        },
                        None => None,
                    }
                } else {
                    None
                },
                None => None,
            }
        } else {
            None
        },
        Pat::Delim(d) => {
            let (open, close) = delim_texts(d);
            if matches_at_exec(s, &open, i) {
            match find_from_b(s, &close, i + open.len()) {
                Some(k) => if one_line_exec(s, i + open.len(), k) {
                    Some((k + close.len(), i + open.len(), k, i, i))
                } else {
                    None
                },
                None => None,
            }
        } else {
            None
        }
        },
        Pat::ExplicitId => {
            let open = chars_of("{#");
            proof {
                reveal_strlit("{#");
            }
            if matches_at_exec(s, &open, i) {
                let e = id_end_exec(s, i + 2);
                if e > i + 2 {
                    Some((e, i + 2, e, i, i))
                } else {
                    None
                }
            } else {
                None
            }
        },
        Pat::Ws => if is_white_space(s[i]) {
            let e = ws_end_exec(s, i);
            Some((e, i, e, i, i))
        } else {
            None
        },
        Pat::Image => {
            let open = chars_of("![");
            proof {
                reveal_strlit("![");
            }
            if matches_at_exec(s, &open, i) {
                match find_char_b(s, ']', i + 2) {
                    Some(q) => match target_after_exec(s, q) {
                        Some(k) => Some((k + 1, i, k + 1, q + 2, k)),
                        None => None,
                    },
                    None => None,
                }
            } else {
                None
            }
        },
        Pat::GermanWord => if german_letter_exec(s[i]) {
            let e = word_end_exec(s, i);
            Some((e, i, e, i, i))
        } else {
            None
        },
        Pat::SeriesSpan => {
            let open = chars_of(SERIES_OPEN);
            let close = chars_of("</span>");
            proof {
                reveal_strlit("</span>");
            }
            if matches_at_exec(s, &open, i) {
                match find_char_b(s, '<', i + open.len()) {
                    Some(j) => if j > i + open.len() && matches_at_exec(s, &close, j) {
                        let e = ws_end_exec(s, j + 7);
                        Some((e, i + open.len(), j, i, i))
                    } else {
                        None
                    },
                    None => None,
                }
            } else {
                None
            }
        },
        Pat::MdFile => {
            let open = chars_of("](");
            let md = chars_of(".md");
            proof {
                reveal_strlit(".md");
                reveal_strlit("](");
            }
            if matches_at_exec(s, &open, i) {
                match find_char_b(s, ')', i + 2) {
                    Some(k) => if k - (i + 2) >= 4 && matches_at_exec(s, &md, k - 3) {
                        Some((k + 1, i + 2, k, i, i))
                    } else {
                        None
                    },
                    None => None,
                }
            } else {
                None
            }
        },
    }
}

// ---------------------------------------------------------------------------
// Scanning
// ---------------------------------------------------------------------------

/// The text a replacement puts in place of the token `h`.
pub fn rep_exec(r: &Rep, s: &[char], h: ExecSpan, out: &mut Vec<char>)
    requires
        h.1 <= h.2 <= s.len(),
    ensures
        final(out)@ == old(out)@ + rep_text(rep_kind(*r), rep_a(*r), rep_b(*r), s@, sv(h)),
{
    match r {
        Rep::Drop => {
            assert(old(out)@ + Seq::<char>::empty() =~= old(out)@);
        },
        Rep::Group => {
            let g = crate::text::slice_chars(s, h.1, h.2);
            push_all(out, &g);
        },
        Rep::Text(t) => {
            push_all(out, t);
        },
        Rep::Wrap(a, b) => {
            let g = crate::text::slice_chars(s, h.1, h.2);
            push_all(out, a);
            push_all(out, &g);
            push_all(out, b);
            assert(old(out)@ + a@ + s@.subrange(h.1 as int, h.2 as int) + b@ =~= old(out)@ + (a@
                + s@.subrange(h.1 as int, h.2 as int) + b@));
        },
    }
}

/// `s` with every token of kind `p` replaced as `r` says.
pub fn replace_all_exec(p: &Pat, r: &Rep, s: &[char]) -> (out: Vec<char>)
    ensures
        out@ == replace_all(*p, rep_kind(*r), rep_a(*r), rep_b(*r), s@),
{
    let ghost k = rep_kind(*r);
    let ghost a = rep_a(*r);
    let ghost b = rep_b(*r);
    let mut out: Vec<char> = Vec::new();
    let mut i: usize = 0;
    while i < s.len()
        invariant
            i <= s.len(),
            k == rep_kind(*r),
            a == rep_a(*r),
            b == rep_b(*r),
            out@ + replace_all_from(*p, k, a, b, s@, i as int) == replace_all(*p, k, a, b, s@),
        decreases s.len() - i,
    {
        let ghost before = out@;
        match hit_exec(p, s, i) {
            Some(h) => {
                rep_exec(r, s, h, &mut out);
                assert(before + (rep_text(k, a, b, s@, sv(h)) + replace_all_from(*p, k, a, b, s@, h.0 as int))
                    =~= out@ + replace_all_from(*p, k, a, b, s@, h.0 as int));
                i = h.0;
            },
            None => {
                out.push(s[i]);
                assert(before + (seq![s@[i as int]] + replace_all_from(*p, k, a, b, s@, i + 1)) =~= out@
                    + replace_all_from(*p, k, a, b, s@, i + 1));
                i += 1;
            },
        }
    }
    assert(replace_all_from(*p, k, a, b, s@, i as int) =~= Seq::<char>::empty());
    assert(out@ + Seq::<char>::empty() =~= out@);
    out
}

/// The spec views of executable spans.
pub open spec fn svs(v: Seq<ExecSpan>) -> Seq<Span> {
    v.map_values(|h: ExecSpan| sv(h))
}

/// The tokens of kind `p` in `s`, left to right.
pub fn hits_exec(p: &Pat, s: &[char]) -> (out: Vec<ExecSpan>)
    ensures
        svs(out@) == hits(*p, s@),
        spans_within(out@, s.len() as int),
{
    let mut out: Vec<ExecSpan> = Vec::new();
    let mut i: usize = 0;
    while i < s.len()
        invariant
            i <= s.len(),
            svs(out@) + hits_from(*p, s@, i as int) == hits(*p, s@),
            spans_within(out@, s.len() as int),
        decreases s.len() - i,
    {
        match hit_exec(p, s, i) {
            Some(h) => {
                let ghost before = out@;
                out.push(h);
                assert(svs(out@) =~= svs(before).push(sv(h)));
                assert(svs(before) + (seq![sv(h)] + hits_from(*p, s@, h.0 as int)) =~= svs(out@)
                    + hits_from(*p, s@, h.0 as int));
                i = h.0;
            },
            None => {
                i += 1;
            },
        }
    }
    assert(hits_from(*p, s@, i as int) =~= Seq::<Span>::empty());
    assert(svs(out@) + Seq::<Span>::empty() =~= svs(out@));
    out
}

/// Every span of `v` lies within the first `n` characters.
pub open spec fn spans_within(v: Seq<ExecSpan>, n: int) -> bool {
    forall|k: int|
        #![trigger v[k]]
        0 <= k < v.len() ==> v[k].1 <= v[k].2 <= n && v[k].3 <= v[k].4 <= n && v[k].0 <= n
}

/// The first token of kind `p` at or after index `from`.
pub fn first_hit_exec(p: &Pat, s: &[char], from: usize) -> (r: Option<ExecSpan>)
    ensures
        r matches Some(h) ==> first_hit(*p, s@, from as int) == Some(sv(h)) && h.1 <= h.2 <= h.0 <= s.len() && h.3 <= h.4 <= h.0,
        r is None ==> first_hit(*p, s@, from as int) is None,
{
    let mut i = from;
    while i < s.len()
        invariant
            from <= i,
            first_hit(*p, s@, from as int) == first_hit(*p, s@, i as int),
        decreases s.len() - i,
    {
        match hit_exec(p, s, i) {
            Some(h) => {
                return Some(h);
            },
            None => {
                i += 1;
            },
        }
    }
    None
}


/// `s` with every token of kind `p` removed.
pub fn strip_all_exec(p: &Pat, s: &[char]) -> (out: Vec<char>)
    ensures
        out@ == strip_all(*p, s@),
{
    replace_all_exec(p, &Rep::Drop, s)
}

/// `s` with every token of kind `p` replaced by its content.
pub fn unwrap_all_exec(p: &Pat, s: &[char]) -> (out: Vec<char>)
    ensures
        out@ == unwrap_all(*p, s@),
{
    replace_all_exec(p, &Rep::Group, s)
}

/// `s` with every token of kind `p` replaced by the text `t`.
pub fn subst_all_exec(p: &Pat, t: &str, s: &[char]) -> (out: Vec<char>)
    ensures
        out@ == subst_all(*p, t@, s@),
{
    let tv = chars_of(t);
    replace_all_exec(p, &Rep::Text(tv), s)
}

/// `s` with the content of every token of kind `p` put between `a` and `b`.
pub fn wrap_all_exec(p: &Pat, a: &str, b: &str, s: &[char]) -> (out: Vec<char>)
    ensures
        out@ == wrap_all(*p, a@, b@, s@),
{
    let av = chars_of(a);
    let bv = chars_of(b);
    replace_all_exec(p, &Rep::Wrap(av, bv), s)
}

} // verus!
