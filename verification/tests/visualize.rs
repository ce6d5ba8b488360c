use nachlass::visualize::display::{compute_display_entries, DisplayEntry};
use nachlass::visualize::parse::{
    build_correspondence, parse_date, parse_source_doc, parse_work, source_doc_order, RemarkBreak,
    SourceDoc,
};
use nachlass::visualize::runs::{detect_runs, page_from_anchor, xml_escape, DocLayout};

fn shows(a: usize, b: usize) -> Vec<DisplayEntry> {
    (a..b).map(DisplayEntry::Show).collect()
}

#[test]
fn short_documents_are_shown_whole() {
    assert_eq!(compute_display_entries(0, &[]), vec![]);
    assert_eq!(compute_display_entries(30, &[]), shows(0, 30));
    assert_eq!(compute_display_entries(40, &[]), shows(0, 40));
}

#[test]
fn unlinked_middle_is_truncated() {
    let mut expected = shows(0, 20);
    expected.push(DisplayEntry::Truncated(10));
    expected.extend(shows(30, 50));
    assert_eq!(compute_display_entries(50, &[]), expected);
}

#[test]
fn context_is_kept_around_correspondences() {
    let mut expected = shows(0, 20);
    expected.push(DisplayEntry::Truncated(10));
    expected.extend(shows(30, 71));
    expected.push(DisplayEntry::Truncated(9));
    expected.extend(shows(80, 100));
    let r = compute_display_entries(100, &[50]);
    assert_eq!(r, expected);
    // every marker has at least 20 shown remarks on each side
    for (k, e) in r.iter().enumerate() {
        if let DisplayEntry::Truncated(_) = e {
            assert!(k >= 20 && r[k - 20..k].iter().all(|x| matches!(x, DisplayEntry::Show(_))));
            assert!(r[k + 1..k + 21].iter().all(|x| matches!(x, DisplayEntry::Show(_))));
        }
    }
}

#[test]
fn overlapping_windows_merge() {
    let mut expected = shows(0, 20);
    expected.push(DisplayEntry::Truncated(5));
    expected.extend(shows(25, 100));
    assert_eq!(compute_display_entries(100, &[45, 60]), expected);
}

const WORK: &str = "# W-PT\n\n### [Ms-104](/ms-104/#3.12): text\n\nbody\n\n### [Ts-227a](/ts-227a/#1.1+2.1)\n### [Ms-104](/ms-104/#5.1)\nno heading here\n";

#[test]
fn work_headings_give_document_and_anchor() {
    let w = parse_work("W-PT.md", WORK);
    assert_eq!(w.filename, "W-PT.md");
    let refs: Vec<(String, String)> =
        w.remarks.iter().map(|r| (r.source_doc.clone(), r.source_anchor.clone())).collect();
    assert_eq!(
        refs,
        vec![
            ("Ms-104".to_string(), "3.12".to_string()),
            ("Ts-227a".to_string(), "1.1+2.1".to_string()),
            ("Ms-104".to_string(), "5.1".to_string()),
        ]
    );
    assert_eq!(source_doc_order(&w), vec!["Ms-104".to_string(), "Ts-227a".to_string()]);
}

#[test]
fn dates_are_rough_day_counts() {
    assert_eq!(parse_date("10.08.1914"), Some(1914 * 365 + 8 * 30 + 10));
    assert_eq!(parse_date("  01.01.2000 "), Some(2000 * 365 + 30 + 1));
    assert_eq!(parse_date("1.1.2000"), None);
    assert_eq!(parse_date("10.08.1914 x"), None);
}

const SOURCE: &str = "# Ms-104\n\n### <span class=\"fac\">[3\\[12\\]](u/3.webp)</span>\n\n10.08.1914\n\ntext\n\n### [5\\[1\\]](u/5.webp),[6\\[2\\]](u/6.webp)\n\n15.08.1914\n\n---\n\n### [7\\[1\\]](u/7.webp)\n\n20.10.1914\n\n### [8\\[1\\]](u/8.webp)\n\n01.01.1915\n";

#[test]
fn source_documents_give_anchors_and_breaks() {
    let d = parse_source_doc(SOURCE);
    assert_eq!(d.anchors, vec!["3.12", "5.1+6.2", "7.1", "8.1"]);
    assert_eq!(d.breaks, vec![RemarkBreak::NoBreak, RemarkBreak::Separator, RemarkBreak::DateGap]);
}

#[test]
fn correspondences_find_the_source_remarks() {
    let w = parse_work("W-PT.md", WORK);
    let docs = vec![("Ms-104".to_string(), parse_source_doc(SOURCE))];
    let cs = build_correspondence(&w, &docs);
    let got: Vec<(usize, String, usize)> =
        cs.iter().map(|c| (c.work_idx, c.doc_name.clone(), c.source_idx)).collect();
    assert_eq!(got, vec![(0, "Ms-104".to_string(), 0)]);
    let empty: Vec<(String, SourceDoc)> = vec![];
    assert!(build_correspondence(&w, &empty).is_empty());
}

#[test]
fn page_identifiers() {
    assert_eq!(page_from_anchor("100r.2"), "100r");
    assert_eq!(page_from_anchor("80.2+81.1"), "80");
    assert_eq!(page_from_anchor("1.1"), "1");
    assert_eq!(page_from_anchor("12"), "12");
}

#[test]
fn escaping_for_svg() {
    assert_eq!(xml_escape("a<b & \"c\">"), "a&lt;b &amp; &quot;c&quot;&gt;");
}

#[test]
fn runs_join_consecutive_correspondences() {
    let w = parse_work(
        "W.md",
        "### [D-1](/d-1/#1)\n### [D-1](/d-1/#2)\n### [D-1](/d-1/#3)\n### [D-1](/d-1/#5)\n",
    );
    let doc = SourceDoc {
        anchors: vec!["1".into(), "2".into(), "3".into(), "4".into(), "5".into()],
        breaks: vec![RemarkBreak::NoBreak, RemarkBreak::Separator, RemarkBreak::NoBreak, RemarkBreak::NoBreak],
    };
    let docs = vec![("D-1".to_string(), doc)];
    let cs = build_correspondence(&w, &docs);
    assert_eq!(cs.len(), 4);
    let layouts = vec![DocLayout {
        doc_name: "D-1".to_string(),
        entries: compute_display_entries(5, &[0, 1, 2, 4]),
        breaks: docs[0].1.breaks.clone(),
    }];
    let runs = detect_runs(&cs, &layouts);
    let got: Vec<(usize, usize, usize, usize)> =
        runs.iter().map(|r| (r.work_start, r.work_end, r.source_start, r.source_end)).collect();
    // the separator before remark 2 splits the first three; remark 4 does not follow 2
    assert_eq!(got, vec![(0, 1, 0, 1), (2, 2, 2, 2), (3, 3, 4, 4)]);
}

#[test]
fn correspondences_just_past_the_end_change_nothing() {
    assert_eq!(compute_display_entries(100, &[110]), compute_display_entries(100, &[]));
    assert_eq!(compute_display_entries(100, &[120, 50]), compute_display_entries(100, &[50]));
}
