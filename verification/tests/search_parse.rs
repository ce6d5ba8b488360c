use nachlass::search::parse::{parse_file, parse_works, work_code};

const DOC: &str = r#"# Ms-101

<details>
<summary>187 published remarks</summary>
<img class="viz" src="/viz/Ms-101.svg">
</details>

### <span class="fac">[1r\[2\]](https://cdn/2000px/webp/Ms-101/1r.webp),[2r\[1\]](https://cdn/2000px/webp/Ms-101/2r.webp)</span>

10.08.1914

Als Rekrut _eingekleidet_ worden. Wenig **Hoffnung** zu können.

### <span class="fac">[IIr\[1\]](https://cdn/2000px/webp/Ms-101/IIr.webp)</span>

Nach meinem Tod zu senden
"#;

#[test]
fn extracts_remarks_with_correct_fragments() {
    let (meta, remarks) = parse_file(DOC).unwrap();
    assert_eq!(meta.doc, "Ms-101");
    assert_eq!(meta.doc_slug, "ms-101");
    assert_eq!(meta.doctype, "Ms");
    assert_eq!(remarks.len(), 2);

    let r0 = &remarks[0];
    assert_eq!(r0.fragment, "1r22r1");
    assert_eq!(r0.page_refs, vec!["1r[2]", "2r[1]"]);
    assert_eq!(r0.image_url.as_deref(), Some("https://cdn/2000px/webp/Ms-101/1r.webp"));
    assert_eq!(r0.date.as_deref(), Some("1914-08-10"));
    assert_eq!(r0.date_sort, Some(19140810));
    assert_eq!(r0.content, "Als Rekrut eingekleidet worden. Wenig Hoffnung zu können.");

    assert_eq!(remarks[1].fragment, "iir1");
    assert_eq!(remarks[1].content, "Nach meinem Tod zu senden");
}

#[test]
fn series_number_is_captured_and_removed() {
    let doc = "# Ms-104\n\n### <span class=\"fac\">[1\\[1\\]](https://cdn/webp/Ms-104/1.webp)</span>\n\n<span class=\"series-number\">1˙1</span> Die Welt ist die Gesamtheit der Tatsachen.\n";
    let (_, remarks) = parse_file(doc).unwrap();
    assert_eq!(remarks[0].series_number.as_deref(), Some("1˙1"));
    assert_eq!(remarks[0].content, "Die Welt ist die Gesamtheit der Tatsachen.");
}

#[test]
fn duplicate_fragments_get_hugo_suffix() {
    let doc = "# Ms-1\n\n### <span class=\"fac\">[1\\[1\\]](u/Ms-1/1.webp)</span>\n\na\n\n### <span class=\"fac\">[1\\[1\\]](u/Ms-1/1.webp)</span>\n\nb\n";
    let (_, remarks) = parse_file(doc).unwrap();
    assert_eq!(remarks[0].fragment, "11");
    assert_eq!(remarks[1].fragment, "11-1");
}

#[test]
fn explicit_ids_are_used_verbatim_and_not_suffixed() {
    let doc = "# Ms-104\n\n### [PT](/w-pt/#ms-104-3.12) <span class=\"fac\">[3\\[12\\]](u/Ms-104/3.webp)</span> {#312}\n\na\n\n### [PT](/w-pt/#ms-104-31.2) <span class=\"fac\">[31\\[2\\]](u/Ms-104/31.webp)</span> {#312}\n\nb\n";
    let (_, remarks) = parse_file(doc).unwrap();
    assert_eq!(remarks[0].fragment, "312");
    assert_eq!(remarks[1].fragment, "312");
}

#[test]
fn parse_works_uses_the_doc_heading_label_and_part_link() {
    let heading = r#"[RFM III](/w-rfm-3/#ms-122-5r.2+5v.1) <span class="fac">[5r\[2\]](u/Ms-122/5r.webp)</span> {#5r25v1}"#;
    let works = parse_works(heading);
    assert_eq!(works.len(), 1);
    assert_eq!(works[0].label, "RFM III");
    assert_eq!(works[0].code, "W-RFM");
    assert_eq!(works[0].url, "/w-rfm-3/#ms-122-5r25v1");
}

#[test]
fn parse_works_empty_for_unpublished_heading() {
    let heading = r#"<span class="fac">[1r\[1\]](u/Ms-101/1r.webp)</span>"#;
    assert!(parse_works(heading).is_empty());
}

#[test]
fn work_code_collapses_parts() {
    assert_eq!(work_code("W-RFM-7"), "W-RFM");
    assert_eq!(work_code("W-PG-1-App-4"), "W-PG");
    assert_eq!(work_code("W-PI"), "W-PI");
    assert_eq!(work_code("W-OC"), "W-OC");
}

#[test]
fn file_without_title_gives_none() {
    assert!(parse_file("no title here\n### <span class=\"fac\">[1](u)</span>\n").is_none());
}

#[test]
fn auto_fragment_after_explicit_id_is_suffixed() {
    let doc = "# Ts-1\n\n### <span class=\"fac\">[1\\[1\\]](u/1.webp)</span> {#11}\n\na\n\n### <span class=\"fac\">[1\\[1\\]](u/1.webp)</span>\n\nb\n";
    let (meta, remarks) = parse_file(doc).unwrap();
    assert_eq!(meta.doctype, "Ts");
    assert_eq!(remarks[0].fragment, "11");
    assert_eq!(remarks[1].fragment, "11-1");
}

#[test]
fn display_math_blocks_and_rules_are_skipped() {
    let doc = "# Ms-2\n\n### <span class=\"fac\">[5\\[1\\]](u/5.webp)</span>\n\n<math display=\"block\">\n<mi>x</mi>\n</math>\n---\n![](img.png)\nEin <s>alter</s> {Satz // Text} mit [Link](x) und <math><mi>y</mi></math>   hier.\n";
    let (_, remarks) = parse_file(doc).unwrap();
    assert_eq!(remarks[0].content, "Ein Satz mit Link und hier.");
    assert_eq!(remarks[0].date, None);
}
