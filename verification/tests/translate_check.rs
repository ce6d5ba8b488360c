use nachlass::translate::check::{check_remarks, restore_skipped, stale_remarks};
use nachlass::translate::common::{parse_document, Remark};
use nachlass::translate::verify::Issue;

const DE: &str = "### [1\\[1\\]](u)\n\nEr sagte ja.\n\n### [1\\[2\\]](u)\n\nZwei\n\n### plain\n\nDrei\n";
const EN: &str = "### [1\\[1\\]](u)\n\nHe said \"yes\".\n";

fn remarks(doc: &str) -> Vec<Remark> {
    parse_document(doc).1
}

#[test]
fn gate_lists_missing_remarks_and_quality_issues() {
    let (de, en) = (remarks(DE), remarks(EN));
    let mut missing: Vec<String> = Vec::new();
    let mut issues: Vec<Issue> = Vec::new();
    check_remarks("Ms-1.md", &de, &en, &[], &[], 4, true, &mut missing, &mut issues);
    assert_eq!(missing, vec!["Ms-1.md:1.2".to_string()]);
    assert!(issues.iter().any(|i| i.check == "quotes"));
    assert!(issues.iter().all(|i| i.remark_id == "1.1" && i.file == "Ms-1.md"));
}

#[test]
fn skip_list_and_plain_verification() {
    let (de, en) = (remarks(DE), remarks(EN));
    let mut missing: Vec<String> = Vec::new();
    let mut issues: Vec<Issue> = Vec::new();
    let skip = vec!["Ms-1.md:1.1".to_string()];
    check_remarks("Ms-1.md", &de, &en, &skip, &[], 4, false, &mut missing, &mut issues);
    assert!(missing.is_empty());
    assert!(issues.is_empty());
}

#[test]
fn stale_remarks_need_an_english_counterpart() {
    let en = remarks(EN);
    let changed = vec![(0, "1.1".to_string()), (1, "1.2".to_string()), (2, String::new())];
    assert_eq!(stale_remarks("Ms-1.md", &changed, &en, &[]), vec!["Ms-1.md:1.1".to_string()]);
    assert!(stale_remarks("Ms-1.md", &changed, &en, &["Ms-1.md:1.1".to_string()]).is_empty());
}

#[test]
fn skipped_remarks_get_the_german_back() {
    let de = remarks(DE);
    let mut en = vec![
        Remark { heading: "### a".to_string(), body: "He said yes.".to_string() },
        Remark { heading: "### b".to_string(), body: "Two".to_string() },
    ];
    assert!(restore_skipped(&de, &mut en, "1.2"));
    assert_eq!(en[1].body, "Zwei");
    assert_eq!(en[1].heading, "### b");
    assert_eq!(en[0].body, "He said yes.");
    assert!(!restore_skipped(&de, &mut en, "1.2"));
    assert!(!restore_skipped(&de, &mut en, "plain"));
}
