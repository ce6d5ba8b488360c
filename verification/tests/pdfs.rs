use nachlass::pdfs::prepare::title_overflow_lines;
use nachlass::pdfs::prepare::{
    convert_h3, extract_part, is_index_file, parse_index_parts, prepare, prepare_book, wrap_h3_with_next,
};
use nachlass::pdfs::template::{build_css, build_template};

#[test]
fn doc_link_and_single_facsimile_have_no_ampersand() {
    let line = r#"### [Ms-172](/ms-172/#21.1) <span class="fac">[21\[1\]](https://cdn/Ms-172/21.webp)</span> {#ms-172-211}"#;
    let html = convert_h3(line).unwrap();
    assert_eq!(
        html,
        r#"<h3><a href="/ms-172/#21.1">Ms-172</a><br><a href="https://cdn/Ms-172/21.webp">21[1]</a></h3>"#
    );
    assert!(!html.contains("&amp;"));
}

#[test]
fn multiple_facsimiles_are_joined_by_ampersand() {
    let line = r#"### [Ms-172](/ms-172/#21.5+22.1) <span class="fac">[21\[5\]](https://cdn/Ms-172/21.webp),[22\[1\]](https://cdn/Ms-172/22.webp)</span> {#ms-172-215221}"#;
    let html = convert_h3(line).unwrap();
    assert_eq!(html.matches("&amp;").count(), 1);
    assert!(html.contains(r#">21[5]</a>&nbsp;&amp;<br><a "#));
}

#[test]
fn facsimile_only_heading_has_no_prefix() {
    let line = r#"### <span class="fac">[1\[1\]](https://cdn/Ms-172/1.webp)</span> {#11}"#;
    let html = convert_h3(line).unwrap();
    assert_eq!(html, r#"<h3><a href="https://cdn/Ms-172/1.webp">1[1]</a></h3>"#);
}

#[test]
fn headings_without_span_or_links() {
    assert_eq!(
        convert_h3(r#"### [IIr\[1\]](u1),[IIr\[2\]](u2)"#).unwrap(),
        r#"<h3><a href="u1">IIr[1]</a>&nbsp;&amp;<br><a href="u2">IIr[2]</a></h3>"#
    );
    assert_eq!(convert_h3("### plain heading"), None);
    assert_eq!(convert_h3("## [a](b)"), None);
}

const INDEX: &str = "# Remarks on the Foundations\n\n<details>\n- [hidden](/w-x/)\n</details>\n\n- [Part I](/w-rfm-1/)\n- [Appendix [1]](/w-rfm-1-app-1/)\nnot a part\n";

#[test]
fn index_files_list_their_parts() {
    assert!(is_index_file(INDEX));
    assert!(!is_index_file("# Ms-1\n\n- [x](/y/)\n"));
    assert_eq!(parse_index_parts(INDEX), vec!["w-x", "w-rfm-1", "w-rfm-1-app-1"]);
}

const PART: &str = "# RFM – Part I\n\n<details>\nviz\n</details>\n\n### [1\\[1\\]](u/1.webp)\n\n\nFirst line.\nSecond line.\n![g](../graphics/a.png)\n";

#[test]
fn headings_are_wrapped_with_their_first_line() {
    let (title, body) = extract_part(PART);
    assert_eq!(title, "RFM – Part I");
    assert_eq!(
        body,
        "<div class=\"remark\">\n<h3><a href=\"u/1.webp\">1[1]</a></h3>\n\n\n\nFirst line.\n\n</div>\n\nSecond line.\n![g](../graphics-cropped/a.png)"
    );
    let lines: Vec<Vec<char>> = vec!["<h3>x</h3>".chars().collect()];
    let w: Vec<String> = wrap_h3_with_next(&lines).into_iter().map(|l| l.into_iter().collect()).collect();
    assert_eq!(w, vec!["<div class=\"remark\">", "<h3>x</h3>", "", "", "</div>", ""]);
}

#[test]
fn single_documents_get_front_matter() {
    let p = prepare("# Ms \"101\"\n\ntext\n", "L. \"W\"");
    assert_eq!(p.title, "Ms \"101\"");
    assert_eq!(
        p.content,
        "---\ntitle: \"Ms \\\"101\\\"\"\nauthor: \"L. \\\"W\\\"\"\nlang: de\n---\n\ntext\n"
    );
}

#[test]
fn books_get_one_chapter_per_part() {
    let parts = vec![PART.to_string(), "# Plain\n\nx\n".to_string(), "no title\n".to_string()];
    let p = prepare_book("# RFM\n- [Part I](/w-rfm-1/)\n", &parts, "A");
    assert_eq!(p.title, "RFM");
    let (_, b1) = extract_part(PART);
    let expected = format!(
        "---\ntitle: \"RFM\"\nauthor: \"A\"\nlang: de\n---\n\n## Part I\n\n{}\n\n## Plain\n\nx\n\nno title\n\n",
        b1
    );
    assert_eq!(p.content, expected);
}

#[test]
fn template_and_stylesheet() {
    let t = build_template();
    assert!(t.starts_with("<!DOCTYPE html>\n<html lang=\"$lang$\">"));
    assert!(t.contains("<h1>$title$</h1>"));
    let css = build_css("/fonts", "/headings/");
    assert!(css.contains("src: url(\"file:///fonts/texgyrepagella-regular.otf\") format(\"opentype\");"));
    assert!(css.contains("src: url(\"file:///headings/SangBleuEmpire-Black-WebS.woff2\") format(\"woff2\");"));
    assert!(css.contains("@page {\n  size: 160mm 240mm;"));
    assert_eq!(css.matches("@font-face {").count(), 9);
}

#[test]
fn long_titles_are_estimated_in_lines() {
    assert_eq!(title_overflow_lines(&"a".repeat(57)), None);
    assert_eq!(title_overflow_lines(&"a".repeat(58)), Some(4));
    assert_eq!(title_overflow_lines(&"ü".repeat(29)), Some(4));
}
