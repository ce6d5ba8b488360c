use nachlass::ebooks::prepare::{detect_parent, prepare, prepare_body, prepare_merged, slug_to_filename};

const PARENT: &str = "# Bemerkungen über die Grundlagen\n\n<details>\nviz\n</details>\n\n- [RFM – Teil I](/w-rfm-1/)\n- [RFM – Anhang – 1](/w-rfm-1-app-1/)\n";

#[test]
fn parent_works_list_their_parts() {
    let (title, parts) = detect_parent(PARENT).unwrap();
    assert_eq!(title, "Bemerkungen über die Grundlagen");
    let got: Vec<(String, String)> = parts.iter().map(|p| (p.chapter_name.clone(), p.slug.clone())).collect();
    assert_eq!(
        got,
        vec![
            ("Teil I".to_string(), "w-rfm-1".to_string()),
            ("Anhang".to_string(), "w-rfm-1-app-1".to_string()),
        ]
    );
}

#[test]
fn other_files_are_no_parents() {
    assert!(detect_parent("# T\n\n- [A](/a/)\n").is_none());
    assert!(detect_parent("# T\n- [A](/a/)\ntext\n- [B](/b/)\n").is_none());
    assert!(detect_parent("# T\n- [A](/a/) \n- [B](/b/)\n").is_none());
}

#[test]
fn slugs_find_files_ignoring_case() {
    let names = vec!["W-RFM-1.md".to_string(), "w-rfm-1.txt".to_string(), "W-RFM-1-App-1.md".to_string()];
    assert_eq!(slug_to_filename("w-rfm-1-app-1", &names), Some("W-RFM-1-App-1.md".to_string()));
    assert_eq!(slug_to_filename("w-rfm-1", &names), Some("W-RFM-1.md".to_string()));
    assert_eq!(slug_to_filename("w-rfm-2", &names), None);
}

const PART: &str = "# W-RFM-1\n\n<details>\nx\n</details>\n\n### [1\\[1\\]](u)\n\nText _one_.\n![g](../graphics/a.png)\n";

#[test]
fn bodies_drop_title_details_and_page_headings() {
    assert_eq!(prepare_body(PART), "Text _one_.\n![g](../graphics-cropped/a.png)\n");
}

#[test]
fn documents_and_merged_works_get_front_matter() {
    let p = prepare(PART, "L. W.");
    assert_eq!(p.title, "W-RFM-1");
    assert_eq!(
        p.content,
        "---\ntitle: \"W-RFM-1\"\nauthor: \"L. W.\"\nlang: de\n---\n\nText _one_.\n![g](../graphics-cropped/a.png)\n"
    );
    let m = prepare_merged("RFM", &[("Teil I".to_string(), "a\n".to_string()), ("Teil II".to_string(), "b\n".to_string())], "A");
    assert_eq!(m.title, "RFM");
    assert_eq!(m.content, "---\ntitle: \"RFM\"\nauthor: \"A\"\nlang: de\n---\n\n# Teil I\n\na\n\n# Teil II\n\nb\n\n");
}

#[test]
fn prepare_strips_facsimile_span_headings() {
    let raw = "# Ms-1\n\n### <span class=\"fac\">[1\\[1\\]](u)</span>\n\nText\n";
    let p = prepare(raw, "A");
    assert_eq!(p.title, "Ms-1");
    assert_eq!(p.content, "---\ntitle: \"Ms-1\"\nauthor: \"A\"\nlang: de\n---\n\nText\n");
}
