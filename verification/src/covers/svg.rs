//! The cover picture: a grid of circles, one per paragraph in reading order, around
//! the title and the branding, plus the text layer that is turned into paths.
use vstd::prelude::*;
use crate::covers::parse::{byte_len, paragraph_view, CoverData, Paragraph, ParagraphView};
use crate::text::{
    chars_of, decimal, push_all, push_decimal, push_str, replace, replace_exec, slice_chars,
    starts_with, starts_with_exec, string_of, uppercase, views, words, words_exec,
};

verus! {

/// The number of grid columns.
pub const COLS: usize = 50;

/// The number of grid rows.
pub const ROWS: usize = 75;

/// The size of a grid cell in pixels.
pub const CELL: usize = 32;

/// The grid row of the first title line.
pub const TITLE_ROW: usize = 28;

/// The grid column where the title starts.
pub const TITLE_COL: usize = 3;

/// The number of rows per title line.
pub const TITLE_LINE_STEP: usize = 4;

/// The grid row of the branding.
pub const BRANDING_ROW: usize = 7;

/// The fill colour of a text group with the given `aria-label`.
pub open spec fn spec_text_group_fill(aria_label: Seq<char>) -> Seq<char> {
    if aria_label == "Writings"@ || starts_with(aria_label, "Wittgenstein"@) {
        "#bbb"@
    } else {
        "#000"@
    }
}

/// The fill colour for a text group, by its `aria-label`: the branding lines use the
/// margin colour, the title the heading colour.
pub fn text_group_fill(aria_label: &str) -> (r: &'static str)
    ensures
        r@ == spec_text_group_fill(aria_label@),
{
    let a = chars_of(aria_label);
    if crate::text::chars_eq(&a, &chars_of("Writings")) || starts_with_exec(&a, "Wittgenstein") {
        "#bbb"
    } else {
        "#000"
    }
}

// ---------------------------------------------------------------------------
// Title words
// ---------------------------------------------------------------------------

/// A title without en dashes (` – ` becomes a space).
pub open spec fn clean_title(title: Seq<char>) -> Seq<char> {
    replace(replace(title, " \u{2013} "@, " "@), "\u{2013}"@, ""@)
}

/// The pieces of `w` from `start`, cut after each hyphen (at index `i` or later) that
/// is not the last character.
pub open spec fn hyphen_pieces(w: Seq<char>, start: int, i: int) -> Seq<Seq<char>>
    decreases w.len() - i,
{
    if i < 0 || i >= w.len() {
        if 0 <= start < w.len() {
            seq![w.subrange(start, w.len() as int)]
        } else {
            Seq::empty()
        }
    } else if w[i] == '-' && i + 1 < w.len() && 0 <= start <= i {
        seq![w.subrange(start, i + 1)] + hyphen_pieces(w, i + 1, i + 1)
    } else {
        hyphen_pieces(w, start, i + 1)
    }
}

/// A title word as displayed: words of more than ten bytes holding a hyphen are cut
/// after their hyphens.
pub open spec fn split_word(w: Seq<char>) -> Seq<Seq<char>> {
    if byte_len(w) > 10 && w.contains('-') {
        hyphen_pieces(w, 0, 0)
    } else {
        seq![w]
    }
}

/// The display words of the first `n` words of `ws`.
pub open spec fn split_words(ws: Seq<Seq<char>>, n: int) -> Seq<Seq<char>>
    decreases n,
{
    if n <= 0 || n > ws.len() {
        Seq::empty()
    } else {
        split_words(ws, n - 1) + split_word(ws[n - 1])
    }
}

/// Split a title into its display words, one per line.
pub open spec fn spec_split_title(title: Seq<char>) -> Seq<Seq<char>> {
    let ws = words(title);
    split_words(ws, ws.len() as int)
}

fn hyphen_pieces_exec(w: &Vec<char>, out: &mut Vec<Vec<char>>)
    ensures
        views(final(out)@) == views(old(out)@) + hyphen_pieces(w@, 0, 0),
{
    let ghost o = views(old(out)@);
    let mut start: usize = 0;
    let mut i: usize = 0;
    while i < w.len()
        invariant
            start <= i <= w.len(),
            views(out@) + hyphen_pieces(w@, start as int, i as int) == o + hyphen_pieces(w@, 0, 0),
        decreases w.len() - i,
    {
        if w[i] == '-' && i + 1 < w.len() {
            let p = slice_chars(w, start, i + 1);
            let ghost before = views(out@);
            out.push(p);
            assert(views(out@) =~= before.push(p@));
            assert(before + (seq![p@] + hyphen_pieces(w@, i + 1, i + 1)) =~= views(out@) + hyphen_pieces(
                w@,
                i + 1,
                i + 1,
            ));
            start = i + 1;
        }
        i += 1;
    }
    if start < w.len() {
        let p = slice_chars(w, start, w.len());
        let ghost before = views(out@);
        out.push(p);
        assert(views(out@) =~= before.push(p@));
    } else {
        assert(views(out@) + Seq::<Seq<char>>::empty() =~= views(out@));
    }
}

fn has_hyphen(w: &Vec<char>) -> (r: bool)
    ensures
        r == w@.contains('-'),
{
    let mut i: usize = 0;
    while i < w.len()
        invariant
            i <= w.len(),
            forall|k: int| 0 <= k < i ==> w@[k] != '-',
        decreases w.len() - i,
    {
        if w[i] == '-' {
            assert(w@[i as int] == '-');
            return true;
        }
        i += 1;
    }
    false
}

/// Split a title into its display words.
pub fn split_title(title: &[char]) -> (r: Vec<Vec<char>>)
    ensures
        views(r@) == spec_split_title(title@),
{
    let ws = words_exec(title);
    let mut out: Vec<Vec<char>> = Vec::new();
    let mut i: usize = 0;
    while i < ws.len()
        invariant
            i <= ws.len(),
            views(ws@) == words(title@),
            views(out@) == split_words(views(ws@), i as int),
        decreases ws.len() - i,
    {
        let w = &ws[i];
        assert(views(ws@)[i as int] == w@);
        let long = string_of(w).as_str().len() > 10;
        if long && has_hyphen(w) {
            hyphen_pieces_exec(w, &mut out);
        } else {
            let ghost before = views(out@);
            out.push(crate::text::copy_chars(w));
            assert(views(out@) =~= before + seq![w@]);
        }
        i += 1;
    }
    out
}

// ---------------------------------------------------------------------------
// The text layer
// ---------------------------------------------------------------------------

/// Text safe in SVG: `&`, `<`, `>`, `"` and `'` escaped.
pub open spec fn svg_escape(s: Seq<char>) -> Seq<char> {
    replace(
        replace(replace(replace(replace(s, "&"@, "&amp;"@), "<"@, "&lt;"@), ">"@, "&gt;"@), "\""@, "&quot;"@),
        "'"@,
        "&apos;"@,
    )
}

fn svg_escape_exec(s: &[char]) -> (r: Vec<char>)
    ensures
        r@ == svg_escape(s@),
{
    proof {
        reveal_strlit("&");
        reveal_strlit("<");
        reveal_strlit(">");
        reveal_strlit("\"");
        reveal_strlit("'");
    }
    let a = replace_exec(s, "&", "&amp;");
    let b = replace_exec(&a, "<", "&lt;");
    let c = replace_exec(&b, ">", "&gt;");
    let d = replace_exec(&c, "\"", "&quot;");
    replace_exec(&d, "'", "&apos;")
}

/// The opening of every cover SVG.
pub const SVG_OPEN: &'static str = "<svg xmlns=\"http://www.w3.org/2000/svg\" width=\"1600\" height=\"2400\" viewBox=\"0 0 1600 2400\">\n";

/// The font faces of the text layer, before the bold font path.
pub const FONT_A: &'static str = "<style>\n  @font-face {\n    font-family: \"SangBleu Empire\";\n    src: url(\"file://";

/// Between the bold and the regular font path.
pub const FONT_B: &'static str = "\") format(\"truetype\");\n    font-weight: 700;\n    font-style: normal;\n  }\n  @font-face {\n    font-family: \"SangBleu Empire\";\n    src: url(\"file://";

/// After the regular font path.
pub const FONT_C: &'static str = "\") format(\"truetype\");\n    font-weight: 400;\n    font-style: normal;\n  }\n</style>\n";

/// A title line's group, before its y coordinate.
pub const WORD_A: &'static str = "\"><text x=\"96\" y=\"";

/// A title line's group, between its y coordinate and its text.
pub const WORD_B: &'static str = "\" font-family=\"SangBleu Empire, TeX Gyre Pagella, serif\" font-size=\"132\" font-weight=\"700\" fill=\"#000\">";

/// The branding lines.
pub const BRANDING: &'static str = "<g aria-label=\"Wittgenstein&#x2019;s\"><text x=\"96\" y=\"336\" font-family=\"SangBleu Empire, TeX Gyre Pagella, serif\" font-size=\"132\" font-weight=\"400\" fill=\"#bbb\">Wittgenstein&#x2019;s</text></g>\n<g aria-label=\"Writings\"><text x=\"96\" y=\"481\" font-family=\"SangBleu Empire, TeX Gyre Pagella, serif\" font-size=\"132\" font-weight=\"400\" fill=\"#bbb\">Writings</text></g>\n</svg>\n";

/// The group of title line `i`, showing the (escaped) word `e`.
pub open spec fn word_group(i: nat, e: Seq<char>) -> Seq<char> {
    "<g aria-label=\""@ + e + WORD_A@ + decimal(1008 + 128 * i) + WORD_B@ + e + "</text></g>\n"@
}

/// The groups of the first `n` title lines.
pub open spec fn word_groups(ws: Seq<Seq<char>>, n: int) -> Seq<char>
    decreases n,
{
    if n <= 0 || n > ws.len() {
        Seq::empty()
    } else {
        word_groups(ws, n - 1) + word_group((n - 1) as nat, svg_escape(ws[n - 1]))
    }
}

/// The text layer of a cover: the title, one word per line, and the branding, with
/// the fonts declared when `embed` holds.
pub open spec fn spec_text_svg(title: Seq<char>, bold: Seq<char>, regular: Seq<char>, embed: bool) -> Seq<char> {
    let ws = spec_split_title(clean_title(title));
    SVG_OPEN@ + (if embed {
        FONT_A@ + bold + FONT_B@ + regular + FONT_C@
    } else {
        Seq::empty()
    }) + word_groups(ws, ws.len() as int) + BRANDING@
}

fn clean_title_exec(title: &str) -> (r: Vec<char>)
    ensures
        r@ == clean_title(title@),
{
    proof {
        reveal_strlit(" \u{2013} ");
        reveal_strlit("\u{2013}");
    }
    let a = replace_exec(&chars_of(title), " \u{2013} ", " ");
    replace_exec(&a, "\u{2013}", "")
}

/// Generate the SVG holding only the text of a cover (to be turned into paths).
pub fn render_text_svg(title: &str, font_bold_path: &str, font_regular_path: &str, embed_font_face: bool) -> (r: String)
    ensures
        r@ == spec_text_svg(title@, font_bold_path@, font_regular_path@, embed_font_face),
        titled_plainly(title@) ==> r@ == filled_text_svg(
            title@,
            font_bold_path@,
            font_regular_path@,
            embed_font_face,
        ),
{
    proof {
        if titled_plainly(title@) {
            lemma_text_groups_filled(title@, font_bold_path@, font_regular_path@, embed_font_face);
        }
    }
    let ws = split_title(&clean_title_exec(title));
    let mut svg = chars_of(SVG_OPEN);
    if embed_font_face {
        push_str(&mut svg, FONT_A);
        push_str(&mut svg, font_bold_path);
        push_str(&mut svg, FONT_B);
        push_str(&mut svg, font_regular_path);
        push_str(&mut svg, FONT_C);
    }
    let ghost head = svg@;
    let mut i: usize = 0;
    while i < ws.len()
        invariant
            i <= ws.len(),
            svg@ == head + word_groups(views(ws@), i as int),
        decreases ws.len() - i,
    {
        assert(views(ws@)[i as int] == ws@[i as int]@);
        let e = svg_escape_exec(&ws[i]);
        push_str(&mut svg, "<g aria-label=\"");
        push_all(&mut svg, &e);
        push_str(&mut svg, WORD_A);
        let y: u128 = 1008 + 128 * (i as u128);
        push_all(&mut svg, &crate::text::decimal_exec_wide(y));
        push_str(&mut svg, WORD_B);
        push_all(&mut svg, &e);
        push_str(&mut svg, "</text></g>\n");
        assert(svg@ =~= head + word_groups(views(ws@), i + 1));
        i += 1;
    }
    push_str(&mut svg, BRANDING);
    string_of(&svg)
}

/// A text group of the cover's text layer: its label (also its text), its y
/// coordinate, font weight and fill.
pub open spec fn text_group(label: Seq<char>, y: Seq<char>, weight: Seq<char>, fill: Seq<char>) -> Seq<char> {
    "<g aria-label=\""@ + label + WORD_A@ + y + GROUP_FONT@ + weight + GROUP_FILL@ + fill + "\">"@ + label
        + "</text></g>\n"@
}

/// A text group's font, before its weight.
pub const GROUP_FONT: &'static str = "\" font-family=\"SangBleu Empire, TeX Gyre Pagella, serif\" font-size=\"132\" font-weight=\"";

/// Between a text group's weight and its fill.
pub const GROUP_FILL: &'static str = "\" fill=\"";

/// The title groups, each filled as `text_group_fill` says for its label.
pub open spec fn filled_title_groups(ws: Seq<Seq<char>>, n: int) -> Seq<char>
    decreases n,
{
    if n <= 0 || n > ws.len() {
        Seq::empty()
    } else {
        let e = svg_escape(ws[n - 1]);
        filled_title_groups(ws, n - 1) + text_group(e, decimal((1008 + 128 * (n - 1)) as nat), "700"@, spec_text_group_fill(e))
    }
}

/// Whether no title word, as written in the SVG, is `Writings` or starts with
/// `Wittgenstein`.
pub open spec fn titled_plainly(title: Seq<char>) -> bool {
    forall|k: int|
        0 <= k < spec_split_title(clean_title(title)).len() ==> {
            let e = svg_escape(#[trigger] spec_split_title(clean_title(title))[k]);
            e != "Writings"@ && !starts_with(e, "Wittgenstein"@)
        }
}

/// The text layer written group by group, each group filled as `text_group_fill`
/// says for its label.
pub open spec fn filled_text_svg(title: Seq<char>, bold: Seq<char>, regular: Seq<char>, embed: bool) -> Seq<char> {
    let ws = spec_split_title(clean_title(title));
    SVG_OPEN@ + (if embed {
        FONT_A@ + bold + FONT_B@ + regular + FONT_C@
    } else {
        Seq::empty()
    }) + filled_title_groups(ws, ws.len() as int) + text_group(
        "Wittgenstein&#x2019;s"@,
        "336"@,
        "400"@,
        spec_text_group_fill("Wittgenstein&#x2019;s"@),
    ) + text_group("Writings"@, "481"@, "400"@, spec_text_group_fill("Writings"@)) + "</svg>\n"@
}

/// Every text group of the text layer is filled with the colour that
/// `text_group_fill` gives its label: the title words (whose escaped form is neither
/// `Writings` nor starts with `Wittgenstein`) and the two branding lines.
pub proof fn lemma_text_groups_filled(title: Seq<char>, bold: Seq<char>, regular: Seq<char>, embed: bool)
    requires
        titled_plainly(title),
    ensures
        spec_text_svg(title, bold, regular, embed) == filled_text_svg(title, bold, regular, embed),
{
    let ws = spec_split_title(clean_title(title));
    reveal_strlit("Writings");
    reveal_strlit("Wittgenstein");
    reveal_strlit("Wittgenstein&#x2019;s");
    reveal_strlit("#bbb");
    reveal_strlit("#000");
    reveal_strlit("700");
    reveal_strlit("400");
    reveal_strlit("336");
    reveal_strlit("481");
    reveal_strlit("\">");
    reveal_strlit("</text></g>\n");
    reveal_strlit("<g aria-label=\"");
    reveal_strlit("</svg>\n");
    reveal_strlit("\"><text x=\"96\" y=\"");
    reveal_strlit("\" font-family=\"SangBleu Empire, TeX Gyre Pagella, serif\" font-size=\"132\" font-weight=\"");
    reveal_strlit("\" fill=\"");
    reveal_strlit("\" font-family=\"SangBleu Empire, TeX Gyre Pagella, serif\" font-size=\"132\" font-weight=\"700\" fill=\"#000\">");
    reveal_strlit("<g aria-label=\"Wittgenstein&#x2019;s\"><text x=\"96\" y=\"336\" font-family=\"SangBleu Empire, TeX Gyre Pagella, serif\" font-size=\"132\" font-weight=\"400\" fill=\"#bbb\">Wittgenstein&#x2019;s</text></g>\n<g aria-label=\"Writings\"><text x=\"96\" y=\"481\" font-family=\"SangBleu Empire, TeX Gyre Pagella, serif\" font-size=\"132\" font-weight=\"400\" fill=\"#bbb\">Writings</text></g>\n</svg>\n");
    assert(WORD_B@ =~= GROUP_FONT@ + "700"@ + GROUP_FILL@ + "#000"@ + "\">"@);
    assert("Wittgenstein&#x2019;s"@.subrange(0, 12) =~= "Wittgenstein"@);
    assert(starts_with("Wittgenstein&#x2019;s"@, "Wittgenstein"@));
    assert(BRANDING@ =~= text_group("Wittgenstein&#x2019;s"@, "336"@, "400"@, spec_text_group_fill("Wittgenstein&#x2019;s"@))
        + text_group("Writings"@, "481"@, "400"@, spec_text_group_fill("Writings"@)) + "</svg>\n"@);
    lemma_filled_groups(ws, ws.len() as int);
}

proof fn lemma_filled_groups(ws: Seq<Seq<char>>, n: int)
    requires
        0 <= n <= ws.len(),
        forall|k: int|
            0 <= k < ws.len() ==> {
                let e = svg_escape(#[trigger] ws[k]);
                e != "Writings"@ && !starts_with(e, "Wittgenstein"@)
            },
        WORD_B@ == GROUP_FONT@ + "700"@ + GROUP_FILL@ + "#000"@ + "\">"@,
    ensures
        word_groups(ws, n) == filled_title_groups(ws, n),
    decreases n,
{
    if n > 0 {
        lemma_filled_groups(ws, n - 1);
        let e = svg_escape(ws[n - 1]);
        assert(spec_text_group_fill(e) == "#000"@);
        assert(word_group((n - 1) as nat, e) =~= text_group(e, decimal((1008 + 128 * (n - 1)) as nat), "700"@, "#000"@));
    }
}

// ---------------------------------------------------------------------------
// The circle layer
// ---------------------------------------------------------------------------

/// The width of a character at title size, in tenths of the width of an ordinary one.
pub open spec fn char_weight(c: char) -> nat {
    if c == 'i' || c == 'l' || c == '-' || c == '1' {
        5
    } else if c == 'T' {
        10
    } else if c == 'm' || c == 'w' {
        12
    } else if uppercase(c) {
        12
    } else {
        10
    }
}

/// The total weight of the characters of a word.
pub open spec fn weight_sum(w: Seq<char>) -> nat
    decreases w.len(),
{
    if w.len() == 0 {
        0
    } else {
        weight_sum(w.drop_last()) + char_weight(w.last())
    }
}

/// The number of grid columns a title word takes, plus one: a character of weight ten
/// is `0.57 * 132 / 32 = 1881 / 800` columns wide, and the width is rounded up.
pub open spec fn word_cols(w: Seq<char>) -> nat {
    (weight_sum(w) * 1881 + 7999) / 8000 + 1
}

/// Whether cell `(r, c)` lies in the box around title line `i` of `wc` columns.
pub open spec fn in_word_box(i: int, wc: int, r: int, c: int) -> bool {
    let row = TITLE_ROW + TITLE_LINE_STEP * i;
    (if row >= 1 {
        row - 1
    } else {
        0
    }) <= r && r <= (if row + TITLE_LINE_STEP <= ROWS - 1 {
        row + TITLE_LINE_STEP
    } else {
        ROWS - 1
    }) && TITLE_COL - 1 <= c && c <= (if TITLE_COL + wc + 1 <= COLS - 1 {
        TITLE_COL + wc + 1
    } else {
        COLS - 1
    })
}

/// Whether cell `(r, c)` lies in the box of one of the first `n` title lines.
pub open spec fn title_cell(wcs: Seq<nat>, n: int, r: int, c: int) -> bool
    decreases n,
{
    if n <= 0 || n > wcs.len() {
        false
    } else {
        title_cell(wcs, n - 1, r, c) || in_word_box(n - 1, wcs[n - 1] as int, r, c)
    }
}

/// Whether cell `(r, c)` is kept free for the branding.
pub open spec fn branding_cell(r: int, c: int) -> bool {
    (6 <= r < 12 && 2 <= c < 33) || (11 <= r < 17 && 2 <= c < 22)
}

/// Whether cell `(r, c)` gets no circle.
pub open spec fn excluded(wcs: Seq<nat>, r: int, c: int) -> bool {
    title_cell(wcs, wcs.len() as int, r, c) || branding_cell(r, c)
}

/// The number of excluded cells among the first `k` cells in reading order.
pub open spec fn skipped(wcs: Seq<nat>, k: int) -> nat
    decreases k,
{
    if k <= 0 {
        0
    } else {
        skipped(wcs, k - 1) + if excluded(wcs, (k - 1) / 50, (k - 1) % 50) {
            1nat
        } else {
            0nat
        }
    }
}

/// The first row with circles for paragraphs: the paragraphs, with the excluded cells,
/// fill whole lines that are centred vertically.
pub open spec fn start_row(paragraphs: nat, skipped: nat) -> int {
    let total = (paragraphs + skipped) / 50;
    (if total <= 75 {
        75 - total
    } else {
        0
    }) / 2
}

/// A circle element.
pub open spec fn circle(cx: nat, cy: nat, r: Seq<char>, class: Seq<char>) -> Seq<char> {
    "<circle cx=\""@ + decimal(cx) + "\" cy=\""@ + decimal(cy) + "\" r=\""@ + r + "\" class=\""@ + class
        + "\"/>\n"@
}

/// The class of a paragraph's circle and whether it has a halo: filled with a halo
/// when it has no more question marks than periods and some period, else solid when it
/// holds bold text, else hollow.
pub open spec fn spec_circle_class(p: ParagraphView) -> (Seq<char>, bool) {
    if p.3 <= p.4 && p.4 > 0 {
        ("f"@, true)
    } else if p.2 {
        ("s"@, false)
    } else {
        ("o"@, false)
    }
}

/// Determine a paragraph's circle class and whether it has a halo.
pub fn circle_class(para: &Paragraph) -> (r: (&'static str, bool))
    ensures
        (r.0@, r.1) == spec_circle_class(paragraph_view(*para)),
{
    if para.question_marks <= para.periods && para.periods > 0 {
        ("f", true)
    } else if para.has_bold {
        ("s", false)
    } else {
        ("o", false)
    }
}

/// The halos, the circles, and the number of paragraphs placed after the first `k`
/// cells in reading order. A free cell at or below the start row takes the next
/// paragraph while any is left, with the radius texts `radii[p]` (circle, halo);
/// other free cells get a small border circle.
pub open spec fn cover_fold(
    wcs: Seq<nat>,
    paras: Seq<ParagraphView>,
    radii: Seq<(Seq<char>, Seq<char>)>,
    start: int,
    k: int,
) -> (Seq<char>, Seq<char>, nat)
    decreases k,
{
    if k <= 0 {
        (Seq::empty(), Seq::empty(), 0)
    } else {
        let (bg, fg, p) = cover_fold(wcs, paras, radii, start, k - 1);
        let r = (k - 1) / 50;
        let c = (k - 1) % 50;
        if excluded(wcs, r, c) {
            (bg, fg, p)
        } else {
            let cx = (c * 32 + 16) as nat;
            let cy = (r * 32 + 16) as nat;
            if r >= start && p < paras.len() {
                let (class, halo) = spec_circle_class(paras[p as int]);
                (
                    if halo {
                        bg + circle(cx, cy, radii[p as int].1, "h"@)
                    } else {
                        bg
                    },
                    fg + circle(cx, cy, radii[p as int].0, class),
                    p + 1,
                )
            } else {
                (bg, fg + circle(cx, cy, "4"@, "b"@), p)
            }
        }
    }
}

/// No more paragraphs are placed than there are.
pub proof fn lemma_cover_placed_bound(
    wcs: Seq<nat>,
    paras: Seq<ParagraphView>,
    radii: Seq<(Seq<char>, Seq<char>)>,
    start: int,
    k: int,
)
    ensures
        cover_fold(wcs, paras, radii, start, k).2 <= paras.len(),
    decreases k,
{
    if k > 0 {
        lemma_cover_placed_bound(wcs, paras, radii, start, k - 1);
    }
}

/// The opening of a cover with its styles and background.
pub const COVER_OPEN: &'static str = "<svg xmlns=\"http://www.w3.org/2000/svg\" width=\"1600\" height=\"2400\" viewBox=\"0 0 1600 2400\">\n<style>\n.h{fill:#fbcba4;stroke:#fbcba4;stroke-width:6}\n.f{fill:#fbcba4;stroke:#444;stroke-width:6}\n.s{fill:#444;stroke:#444;stroke-width:6}\n.o{fill:none;stroke:#444;stroke-width:6}\n.b{fill:none;stroke:#444;stroke-width:2}\n</style>\n<rect width=\"100%\" height=\"100%\" fill=\"white\"/>\n";

/// The column widths of the title words of a cover.
pub open spec fn title_word_cols(title: Seq<char>) -> Seq<nat> {
    spec_split_title(clean_title(title)).map_values(|w: Seq<char>| word_cols(w))
}

/// The cover picture and the number of paragraphs placed.
pub open spec fn spec_render_cover(
    title: Seq<char>,
    paras: Seq<ParagraphView>,
    text_paths: Seq<char>,
    radii: Seq<(Seq<char>, Seq<char>)>,
) -> (Seq<char>, nat) {
    let wcs = title_word_cols(title);
    let start = start_row(paras.len(), skipped(wcs, 3750));
    let (bg, fg, p) = cover_fold(wcs, paras, radii, start, 3750);
    (COVER_OPEN@ + bg + fg + text_paths + "</svg>\n"@, p)
}

fn weight_sum_exec(w: &Vec<char>) -> (n: u128)
    ensures
        n == weight_sum(w@),
        n <= 12 * w.len(),
{
    let mut n: u128 = 0;
    let mut i: usize = 0;
    while i < w.len()
        invariant
            i <= w.len(),
            n == weight_sum(w@.take(i as int)),
            n <= 12 * i,
        decreases w.len() - i,
    {
        assert(w@.take(i + 1).drop_last() =~= w@.take(i as int));
        let c = w[i];
        let k: u128 = if c == 'i' || c == 'l' || c == '-' || c == '1' {
            5
        } else if c == 'T' {
            10
        } else if c == 'm' || c == 'w' {
            12
        } else if crate::text::is_uppercase(c) {
            12
        } else {
            10
        };
        n = n + k;
        i += 1;
    }
    assert(w@.take(w.len() as int) =~= w@);
    n
}

fn in_word_box_exec(i: usize, wc: u128, r: usize, c: usize) -> (b: bool)
    requires
        wc < 0x1_0000_0000_0000_0000_0000,
    ensures
        b == in_word_box(i as int, wc as int, r as int, c as int),
{
    let row: u128 = 28 + 4 * (i as u128);
    let lo: u128 = if row >= 1 {
        row - 1
    } else {
        0
    };
    let hi: u128 = if row + 4 <= 74 {
        row + 4
    } else {
        74
    };
    let chi: u128 = if 3 + wc + 1 <= 49 {
        3 + wc + 1
    } else {
        49
    };
    lo <= r as u128 && r as u128 <= hi && 2 <= c as u128 && c as u128 <= chi
}

fn excluded_exec(wcs: &Vec<u128>, r: usize, c: usize) -> (b: bool)
    requires
        forall|k: int| 0 <= k < wcs.len() ==> wcs@[k] < 0x1_0000_0000_0000_0000_0000,
    ensures
        b == excluded(wcs@.map_values(|x: u128| x as nat), r as int, c as int),
{
    let ghost wv = wcs@.map_values(|x: u128| x as nat);
    let mut found = false;
    let mut i: usize = 0;
    while i < wcs.len()
        invariant
            i <= wcs.len(),
            wv == wcs@.map_values(|x: u128| x as nat),
            forall|k: int| 0 <= k < wcs.len() ==> wcs@[k] < 0x1_0000_0000_0000_0000_0000,
            found == title_cell(wv, i as int, r as int, c as int),
        decreases wcs.len() - i,
    {
        assert(wv[i as int] == wcs@[i as int] as nat);
        if in_word_box_exec(i, wcs[i], r, c) {
            found = true;
        }
        i += 1;
    }
    found || (6 <= r && r < 12 && 2 <= c && c < 33) || (11 <= r && r < 17 && 2 <= c && c < 22)
}

fn push_circle(out: &mut Vec<char>, cx: u64, cy: u64, r: &str, class: &str)
    ensures
        final(out)@ == old(out)@ + circle(cx as nat, cy as nat, r@, class@),
{
    let ghost o = old(out)@;
    push_str(out, "<circle cx=\"");
    push_decimal(out, cx);
    push_str(out, "\" cy=\"");
    push_decimal(out, cy);
    push_str(out, "\" r=\"");
    push_str(out, r);
    push_str(out, "\" class=\"");
    push_str(out, class);
    push_str(out, "\"/>\n");
    assert(out@ =~= o + circle(cx as nat, cy as nat, r@, class@));
}

/// The cover picture and the number of paragraphs placed: a 50 by 75 grid of 32-pixel
/// cells read row by row; the cells around the title lines and the branding stay
/// free; the other cells take one circle each, for the paragraphs in order from the
/// start row on, and small border circles elsewhere. `radii` gives, for each paragraph,
/// the texts of its circle's and its halo's radius.
pub fn render_cover(data: &CoverData, text_paths: &str, radii: &[(String, String)]) -> (r: (String, usize))
    requires
        radii.len() == data.paragraphs.len(),
    ensures
        (r.0@, r.1 as nat) == spec_render_cover(
            data.title@,
            data.paragraphs@.map_values(|p: Paragraph| paragraph_view(p)),
            text_paths@,
            radii@.map_values(|x: (String, String)| (x.0@, x.1@)),
        ),
        r.1 <= data.paragraphs.len(),
{
    let ws = split_title(&clean_title_exec(data.title.as_str()));
    let mut wcs: Vec<u128> = Vec::new();
    let mut i: usize = 0;
    while i < ws.len()
        invariant
            i <= ws.len(),
            views(ws@) == spec_split_title(clean_title(data.title@)),
            wcs@.map_values(|x: u128| x as nat) == views(ws@).take(i as int).map_values(|w: Seq<char>| word_cols(w)),
            forall|k: int| 0 <= k < wcs.len() ==> wcs@[k] < 0x1_0000_0000_0000_0000_0000,
        decreases ws.len() - i,
    {
        let s = weight_sum_exec(&ws[i]);
        let wc = (s * 1881 + 7999) / 8000 + 1;
        let ghost before = wcs@;
        assert(views(ws@)[i as int] == ws@[i as int]@);
        assert(wc as nat == word_cols(ws@[i as int]@));
        wcs.push(wc);
        assert(wcs@.map_values(|x: u128| x as nat) =~= before.map_values(|x: u128| x as nat).push(wc as nat));
        assert(views(ws@).take(i + 1).map_values(|w: Seq<char>| word_cols(w)) =~= views(ws@).take(i as int).map_values(|w: Seq<char>| word_cols(w)).push(word_cols(ws@[i as int]@)));
        assert(wcs@.map_values(|x: u128| x as nat) =~= views(ws@).take(i + 1).map_values(|w: Seq<char>| word_cols(w)));
        i += 1;
    }
    assert(views(ws@).take(ws.len() as int) =~= views(ws@));
    let ghost wv = wcs@.map_values(|x: u128| x as nat);
    assert(wv == title_word_cols(data.title@));
    // count the excluded cells
    let mut skip: u64 = 0;
    let mut k: usize = 0;
    while k < 3750
        invariant
            k <= 3750,
            forall|j: int| 0 <= j < wcs.len() ==> wcs@[j] < 0x1_0000_0000_0000_0000_0000,
            wv == wcs@.map_values(|x: u128| x as nat),
            skip == skipped(wv, k as int),
            skip <= k,
        decreases 3750 - k,
    {
        if excluded_exec(&wcs, k / 50, k % 50) {
            skip += 1;
        }
        k += 1;
    }
    let np = data.paragraphs.len();
    let total: usize = ((np as u128 + skip as u128) / 50) as usize;
    let start: usize = (if total <= 75 {
        75 - total
    } else {
        0
    }) / 2;
    assert(start == start_row(np as nat, skipped(wv, 3750)));
    let ghost pv = data.paragraphs@.map_values(|p: Paragraph| paragraph_view(p));
    let ghost rv = radii@.map_values(|x: (String, String)| (x.0@, x.1@));
    let mut bg: Vec<char> = Vec::new();
    let mut fg: Vec<char> = Vec::new();
    let mut p: usize = 0;
    let mut k: usize = 0;
    while k < 3750
        invariant
            k <= 3750,
            forall|j: int| 0 <= j < wcs.len() ==> wcs@[j] < 0x1_0000_0000_0000_0000_0000,
            wv == wcs@.map_values(|x: u128| x as nat),
            pv == data.paragraphs@.map_values(|p: Paragraph| paragraph_view(p)),
            rv == radii@.map_values(|x: (String, String)| (x.0@, x.1@)),
            radii.len() == data.paragraphs.len(),
            cover_fold(wv, pv, rv, start as int, k as int) == (bg@, fg@, p as nat),
            p <= k,
        decreases 3750 - k,
    {
        let r = k / 50;
        let c = k % 50;
        if !excluded_exec(&wcs, r, c) {
            let cx = (c * 32 + 16) as u64;
            let cy = (r * 32 + 16) as u64;
            if r >= start && p < data.paragraphs.len() {
                let (class, halo) = circle_class(&data.paragraphs[p]);
                assert(pv[p as int] == paragraph_view(data.paragraphs@[p as int]));
                assert(rv[p as int] == (radii@[p as int].0@, radii@[p as int].1@));
                if halo {
                    push_circle(&mut bg, cx, cy, radii[p].1.as_str(), "h");
                }
                push_circle(&mut fg, cx, cy, radii[p].0.as_str(), class);
                p += 1;
            } else {
                push_circle(&mut fg, cx, cy, "4", "b");
            }
        }
        k += 1;
    }
    let mut svg = chars_of(COVER_OPEN);
    push_all(&mut svg, &bg);
    push_all(&mut svg, &fg);
    push_str(&mut svg, text_paths);
    push_str(&mut svg, "</svg>\n");
    proof {
        lemma_cover_placed_bound(wv, pv, rv, start as int, 3750);
    }
    (string_of(&svg), p)
}

} // verus!
