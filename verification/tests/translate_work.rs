use nachlass::translate::reuse::{
    build_reuse_map, find_translated_sibling, parse_ignore_words, parse_skip_list, should_skip_remark, try_auto_fix_remark,
};
use nachlass::translate::work::{
    assemble_work, expand_work_parts, parse_index_order, parse_work_heading, remark_url_entries,
    work_source_docs,
};

fn strings(v: &[&str]) -> Vec<String> {
    v.iter().map(|s| s.to_string()).collect()
}

#[test]
fn index_order_splits_documents_and_works() {
    let index = "- [A](Ms-101.md)\n- [B](W-PI.md) and [C](Ms-101.md)\n- [D](Ts-213.md) [x](img.png)\n";
    let (docs, works) = parse_index_order(index);
    assert_eq!(docs, strings(&["Ms-101.md", "Ts-213.md"]));
    assert_eq!(works, strings(&["W-PI.md"]));
}

#[test]
fn work_parts_follow_their_work() {
    let on_disk = strings(&["W-PI.md", "W-RFM-1-App-1.md", "W-RFM-1.md", "W-RFM.md", "W-RFMX.md"]);
    let works = strings(&["W-RFM.md", "W-PI.md", "W-RFM.md"]);
    assert_eq!(
        expand_work_parts(&works, &on_disk),
        strings(&["W-RFM.md", "W-RFM-1-App-1.md", "W-RFM-1.md", "W-PI.md"])
    );
}

#[test]
fn source_documents_of_a_work() {
    let work = "# W\n### [Ms-172](/ms-172/#1.1): x\nbody\n### [Ts-213a](/ts-213a/#2.1)\n### [Ms-172](/ms-172/#1.2)\n### [PI](/w-pi/)\n";
    assert_eq!(work_source_docs(work), strings(&["Ms-172.md", "Ts-213a.md"]));
}

#[test]
fn translated_work_headings_name_their_source() {
    assert_eq!(
        parse_work_heading("### [Ms-172](/ms-172/#1.1): Bemerkung"),
        Some(("Ms-172".to_string(), "1.1".to_string()))
    );
    assert_eq!(parse_work_heading("### [PI](/w-pi/#1)"), None);
    assert_eq!(parse_work_heading("## [Ms-172](/ms-172/#1.1)"), None);
}

#[test]
fn works_are_assembled_from_translated_remarks() {
    let doc_en = "# Ms-172\n\n### [1\\[1\\]](u)\n\n<span class=\"series-number\">7</span> The world.\n\n### [1\\[2\\]](u)\n\nSecond.\n";
    let map = remark_url_entries("Ms-172", doc_en);
    assert_eq!(
        map,
        vec![
            ("Ms-172#1.1".to_string(), "<span class=\"series-number\">7</span> The world.".to_string()),
            ("Ms-172#1.2".to_string(), "Second.".to_string()),
        ]
    );
    let work = "# W-X\n\n### [Ms-172](/ms-172/#1.1)\n\n<span class=\"series-number\">1</span> Die Welt.\n\n### [Ms-172](/ms-172/#9.9)\n\nFehlt.\n";
    let (text, missing) = assemble_work(work, &map);
    assert_eq!(
        text,
        "# W-X\n\n### [Ms-172](/ms-172/#1.1)\n\n<span class=\"series-number\">1</span> The world.\n\n### [Ms-172](/ms-172/#9.9)\n\nFehlt.\n"
    );
    assert_eq!(missing, strings(&["### [Ms-172](/ms-172/#9.9)"]));
}

#[test]
fn prefix_and_suffix_changes_are_carried_over() {
    assert_eq!(try_auto_fix_remark("Satz.", "Satz.", "Sentence."), None);
    assert_eq!(try_auto_fix_remark("1) Satz", "2) Satz", "1) Sentence"), Some("2) Sentence".to_string()));
    assert_eq!(try_auto_fix_remark("Satz.", "Satz!", "Sentence."), Some("Sentence!".to_string()));
    assert_eq!(try_auto_fix_remark("Ein Satz", "Kein Satz", "A sentence"), None);
}

#[test]
fn skip_lists_name_file_and_remark() {
    let skip = parse_skip_list("# comment\n\n  Ms-1.md:1.1  \nTs-2.md:3\n");
    assert_eq!(skip, strings(&["Ms-1.md:1.1", "Ts-2.md:3"]));
    assert!(should_skip_remark(&skip, "Ms-1.md", "1.1"));
    assert!(!should_skip_remark(&skip, "Ms-1.md", "1.2"));
}

#[test]
fn siblings_must_exist_on_both_sides() {
    let translated = strings(&["Ts-227a.md", "Ts-227c.md"]);
    let originals = strings(&["Ts-227c.md", "Ts-227b.md"]);
    assert_eq!(find_translated_sibling("Ts-227b.md", &translated, &originals), Some("Ts-227c.md".to_string()));
    assert_eq!(find_translated_sibling("Ts-227.md", &translated, &originals), None);
    assert_eq!(find_translated_sibling("Ts-227b.txt", &translated, &originals), None);
}

#[test]
fn reuse_finds_nearly_identical_remarks() {
    let de = "### 1\n\nDie Welt ist alles was der Fall ist und bleibt.\n\n### 2\n\nab\n";
    let en = "### 1\n\nThe world is all that is the case.\n\n### 2\n\nab\n";
    let m = build_reuse_map(de, en);
    assert_eq!(m.len, 1);
    assert_eq!(m.lookup("Die Welt ist alles, was der Fall ist und bleibt!"), Some("The world is all that is the case."));
    assert_eq!(m.lookup("Die Welt ist alles was der Fall ist und geht."), None);
    assert_eq!(m.lookup("ab"), None);
}

#[test]
fn ignore_words_are_lowercased_entries() {
    assert_eq!(parse_ignore_words("# comment\n  Welt \n\nSATZ\n"), strings(&["welt", "satz"]));
}

#[test]
fn work_parts_come_in_byte_order_whatever_the_listing() {
    let works = strings(&["W-RFM.md", "W-PI.md"]);
    let listing = strings(&["W-RFM.md", "W-RFM-2.md", "W-RFM-1.md", "W-RFM-1-App-1.md", "W-PI.md", "Ms-1.md"]);
    assert_eq!(
        expand_work_parts(&works, &listing),
        strings(&["W-RFM.md", "W-RFM-1-App-1.md", "W-RFM-1.md", "W-RFM-2.md", "W-PI.md"])
    );
}
