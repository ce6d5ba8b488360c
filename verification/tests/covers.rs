use nachlass::covers::parse::cover_parts;
use std::collections::HashSet;

use nachlass::covers::paths::extract_text_paths;
use nachlass::covers::parse::{extract_paragraphs, extract_subtitle, parse_for_cover, CoverData, Paragraph};
use nachlass::covers::svg::{circle_class, render_cover, render_text_svg, split_title, text_group_fill};

const DOC: &str = "# Ms-101 \u{2013} Tagebuch\n\n<details>\n<summary>1914</summary>\nhidden\n</details>\n\n### 1r\n\nErster **Satz**. Zweiter Satz.\n\nWas ist das? Und das?\n\n_Ein_ [Link](http://u) <b>x</b>\n\n---\n\n**Fett**\n";

fn words(title: &str) -> Vec<String> {
    let cs: Vec<char> = title.chars().collect();
    split_title(&cs).into_iter().map(|w| w.into_iter().collect()).collect()
}

#[test]
fn cover_title_subtitle_and_paragraphs() {
    let data = parse_for_cover(DOC);
    assert_eq!(data.title, "Ms-101 \u{2013} Tagebuch");
    assert_eq!(data.subtitle.as_deref(), Some("1914"));
    let ps = &data.paragraphs;
    assert_eq!(ps.len(), 4);
    assert_eq!(ps[0].text, "Erster Satz. Zweiter Satz.");
    assert_eq!(ps[0].len, 26);
    assert!(ps[0].has_bold);
    assert_eq!((ps[0].question_marks, ps[0].periods), (0, 2));
    assert_eq!(ps[1].text, "Was ist das? Und das?");
    assert_eq!(ps[1].len, 21);
    assert_eq!((ps[1].question_marks, ps[1].periods), (2, 0));
    assert_eq!(ps[2].text, "Ein Link x");
    assert_eq!(ps[2].len, 10);
    assert!(!ps[2].has_bold);
    assert_eq!(ps[3].text, "Fett");
}

#[test]
fn paragraph_length_counts_bytes() {
    let ps = extract_paragraphs("Über {alt // neu}");
    assert_eq!(ps.len(), 1);
    assert_eq!(ps[0].text, "Über alt ");
    assert_eq!(ps[0].len, 10);
}

#[test]
fn subtitle_absent_without_summary() {
    assert_eq!(extract_subtitle("# T\n\ntext\n"), None);
    assert_eq!(extract_subtitle("<summary> 1930 </summary>"), Some("1930".to_string()));
}

#[test]
fn titles_split_on_spaces_and_long_hyphenated_words() {
    assert_eq!(words("Ms-101 Tagebuch"), vec!["Ms-101", "Tagebuch"]);
    assert_eq!(words("Tractatus-Logico-Philosophicus"), vec!["Tractatus-", "Logico-", "Philosophicus"]);
    assert_eq!(words("abcdefghij-"), vec!["abcdefghij-"]);
    assert_eq!(words("  a   b "), vec!["a", "b"]);
}

#[test]
fn text_groups_take_their_colour() {
    assert_eq!(text_group_fill("Writings"), "#bbb");
    assert_eq!(text_group_fill("Wittgenstein&#x2019;s"), "#bbb");
    assert_eq!(text_group_fill("Tagebuch"), "#000");
}

#[test]
fn circle_classes_follow_punctuation_and_bold() {
    let p = |q: usize, d: usize, b: bool| Paragraph { text: String::new(), len: 1, has_bold: b, question_marks: q, periods: d };
    assert_eq!(circle_class(&p(0, 2, true)), ("f", true));
    assert_eq!(circle_class(&p(2, 2, false)), ("f", true));
    assert_eq!(circle_class(&p(3, 2, true)), ("s", false));
    assert_eq!(circle_class(&p(0, 0, true)), ("s", false));
    assert_eq!(circle_class(&p(1, 0, false)), ("o", false));
}

#[test]
fn text_svg_is_exact() {
    let svg = render_text_svg("Ms-101 \u{2013} Tagebuch", "/b.ttf", "/r.ttf", false);
    let font = "font-family=\"SangBleu Empire, TeX Gyre Pagella, serif\" font-size=\"132\"";
    let expected = format!(
        "<svg xmlns=\"http://www.w3.org/2000/svg\" width=\"1600\" height=\"2400\" viewBox=\"0 0 1600 2400\">\n\
<g aria-label=\"Ms-101\"><text x=\"96\" y=\"1008\" {font} font-weight=\"700\" fill=\"#000\">Ms-101</text></g>\n\
<g aria-label=\"Tagebuch\"><text x=\"96\" y=\"1136\" {font} font-weight=\"700\" fill=\"#000\">Tagebuch</text></g>\n\
<g aria-label=\"Wittgenstein&#x2019;s\"><text x=\"96\" y=\"336\" {font} font-weight=\"400\" fill=\"#bbb\">Wittgenstein&#x2019;s</text></g>\n\
<g aria-label=\"Writings\"><text x=\"96\" y=\"481\" {font} font-weight=\"400\" fill=\"#bbb\">Writings</text></g>\n\
</svg>\n"
    );
    assert_eq!(svg, expected);
}

#[test]
fn text_svg_escapes_and_embeds_fonts() {
    let svg = render_text_svg("A&B", "/b.ttf", "/r.ttf", true);
    assert!(svg.contains("src: url(\"file:///b.ttf\") format(\"truetype\");\n    font-weight: 700;"));
    assert!(svg.contains("src: url(\"file:///r.ttf\") format(\"truetype\");\n    font-weight: 400;"));
    assert!(svg.contains("<g aria-label=\"A&amp;B\">"));
}

fn radius(len: usize) -> f64 {
    let r = (len as f64 + 1.0).ln().powi(2) / 4.0;
    r.min(32.0 * 0.42)
}

/// The cover as the floating-point layout computes it, for comparison.
fn reference_cover(data: &CoverData, text_paths: &str) -> (String, usize) {
    let clean = data.title.replace(" \u{2013} ", " ").replace('\u{2013}', "");
    let ws = words(&clean);
    let mut cells = HashSet::new();
    for (i, word) in ws.iter().enumerate() {
        let row = 28 + i * 4;
        let cpc = (0.57 * 132.0) / 32.0;
        let wc = word
            .chars()
            .map(|c| match c {
                'i' | 'l' | '-' | '1' => 0.5,
                'T' => 1.0,
                'm' | 'w' => 1.2,
                c if c.is_uppercase() => 1.2,
                _ => 1.0,
            })
            .map(|w: f64| w * cpc)
            .sum::<f64>()
            .ceil() as usize
            + 1;
        for r in row.saturating_sub(1)..=(row + 4).min(74) {
            for c in 2..=(3 + wc + 1).min(49) {
                cells.insert((r, c));
            }
        }
    }
    for r in 6..12 {
        for c in 2..33 {
            cells.insert((r, c));
        }
    }
    for r in 11..17 {
        for c in 2..22 {
            cells.insert((r, c));
        }
    }
    let skipped = cells.len();
    let start = 75usize.saturating_sub((data.paragraphs.len() + skipped) / 50) / 2;
    let (mut bg, mut fg) = (String::new(), String::new());
    let mut it = data.paragraphs.iter();
    let mut placed = 0;
    for row in 0..75 {
        for col in 0..50 {
            if cells.contains(&(row, col)) {
                continue;
            }
            let (cx, cy) = (col * 32 + 16, row * 32 + 16);
            if row >= start {
                if let Some(p) = it.next() {
                    let r = radius(p.len);
                    let (class, halo) = circle_class(p);
                    if halo {
                        bg.push_str(&format!("<circle cx=\"{cx}\" cy=\"{cy}\" r=\"{:.1}\" class=\"h\"/>\n", r + 5.0));
                    }
                    fg.push_str(&format!("<circle cx=\"{cx}\" cy=\"{cy}\" r=\"{r:.1}\" class=\"{class}\"/>\n"));
                    placed += 1;
                    continue;
                }
            }
            fg.push_str(&format!("<circle cx=\"{cx}\" cy=\"{cy}\" r=\"4\" class=\"b\"/>\n"));
        }
    }
    let head = "<svg xmlns=\"http://www.w3.org/2000/svg\" width=\"1600\" height=\"2400\" viewBox=\"0 0 1600 2400\">\n<style>\n.h{fill:#fbcba4;stroke:#fbcba4;stroke-width:6}\n.f{fill:#fbcba4;stroke:#444;stroke-width:6}\n.s{fill:#444;stroke:#444;stroke-width:6}\n.o{fill:none;stroke:#444;stroke-width:6}\n.b{fill:none;stroke:#444;stroke-width:2}\n</style>\n<rect width=\"100%\" height=\"100%\" fill=\"white\"/>\n";
    (format!("{head}{bg}{fg}{text_paths}</svg>\n"), placed)
}

fn radii(data: &CoverData) -> Vec<(String, String)> {
    data.paragraphs.iter().map(|p| (format!("{:.1}", radius(p.len)), format!("{:.1}", radius(p.len) + 5.0))).collect()
}

#[test]
fn cover_matches_floating_point_layout() {
    let data = parse_for_cover(DOC);
    let (svg, placed) = render_cover(&data, "<g/>\n", &radii(&data));
    assert_eq!(placed, 4);
    assert_eq!((svg.clone(), placed), reference_cover(&data, "<g/>\n"));
    assert!(svg.contains("class=\"h\"/>"));
}

#[test]
fn long_titles_and_many_paragraphs_match_too() {
    let mut paragraphs = Vec::new();
    for i in 0..3000usize {
        paragraphs.push(Paragraph {
            text: String::new(),
            len: i * 7 % 4000,
            has_bold: i % 3 == 0,
            question_marks: i % 4,
            periods: i % 5,
        });
    }
    let data = CoverData {
        title: "Bemerkungen \u{2013} \u{00dc}ber-die-Grundlagen-der-Mathematik Williamswill".to_string(),
        subtitle: None,
        paragraphs,
    };
    let (svg, placed) = render_cover(&data, "", &radii(&data));
    let (want, want_placed) = reference_cover(&data, "");
    assert_eq!(placed, want_placed);
    assert_eq!(svg, want);
}

#[test]
fn converted_title_groups_keep_path_and_fill() {
    let svg = "<svg>\n<g\n   aria-label=\"Ms-101\"\n   id=\"text1\"><path\n     d=\"M 1,2 L 3,4\"\n     style=\"font-size:132px; fill: #000000 \"\n     id=\"path1\" /></g>\n<g aria-label=\"x\"><rect/></g>\n<path aria-label=\"y\" d=\"z\"/>\n<g aria-label=\"W\"><path id=\"p\" d=\"M 0\"/></g>\n</svg>\n";
    assert_eq!(
        extract_text_paths(svg),
        "<g aria-label=\"Ms-101\"><path d=\"M 1,2 L 3,4\" fill=\"#000000\"/></g>\n<g aria-label=\"W\"><path d=\"M 0\"/></g>\n"
    );
    assert_eq!(extract_text_paths("no groups"), "");
}

#[test]
fn works_with_few_paragraphs_take_their_parts_in_order() {
    let names: Vec<String> = ["W-PI-2.md", "W-PI-1.md", "W-PIX.md", "W-PI-1.txt", "Ms-1.md"].iter().map(|s| s.to_string()).collect();
    assert_eq!(cover_parts("W-PI", 3, &names), vec!["W-PI-1.md".to_string(), "W-PI-2.md".to_string()]);
    assert!(cover_parts("W-PI", 6, &names).is_empty());
    assert!(cover_parts("Ms-1", 0, &names).is_empty());
}

#[test]
fn text_groups_are_filled_by_their_label() {
    assert_eq!(text_group_fill("PI"), "#000");
    assert_eq!(text_group_fill("Writings"), "#bbb");
    assert_eq!(text_group_fill("Wittgenstein&#x2019;s"), "#bbb");
    let svg = render_text_svg("PI", "b", "r", false);
    assert!(svg.contains("<g aria-label=\"PI\"><text x=\"96\" y=\"1008\" font-family=\"SangBleu Empire, TeX Gyre Pagella, serif\" font-size=\"132\" font-weight=\"700\" fill=\"#000\">PI</text></g>\n"));
    assert!(svg.contains("<g aria-label=\"Writings\"><text x=\"96\" y=\"481\" font-family=\"SangBleu Empire, TeX Gyre Pagella, serif\" font-size=\"132\" font-weight=\"400\" fill=\"#bbb\">Writings</text></g>\n"));
}
