use nachlass::search::parse::{parse_file, DocMeta, Remark};
use nachlass::search::record::{
    count_records, doc_order_key, first_invalid_id, has_anchor, is_indexable, page_key, records_for_file, rendered_page,
};

const DOC: &str = r#"# Ms-101

### <span class="fac">[1r\[2\]](https://cdn/Ms-101/1r.webp)</span>

Erste Bemerkung.

### <span class="fac">[2r\[1\]](https://cdn/Ms-101/2r.webp)</span>

### <span class="fac">[3r\[1\]](https://cdn/Ms-101/3r.webp)</span>

Dritte Bemerkung.
"#;

#[test]
fn records_skip_empty_remarks_and_count_on() {
    let (meta, remarks) = parse_file(DOC).unwrap();
    assert_eq!(remarks.len(), 3);
    let mut ord: u32 = 5;
    let recs = records_for_file(&meta, &remarks, "en", "/en/{slug}/#{frag}", &mut ord);
    assert_eq!(ord, 7);
    assert_eq!(recs.len(), 2);
    assert_eq!(recs[0].id, "en_ms-101_1r2");
    assert_eq!(recs[0].url, "/en/ms-101/#1r2");
    assert_eq!(recs[0].ord, 5);
    assert_eq!(recs[0].language, "en");
    assert_eq!(recs[0].doc, "Ms-101");
    assert_eq!(recs[0].doctype, "Ms");
    assert_eq!(recs[0].content, "Erste Bemerkung.");
    assert_eq!(recs[1].id, "en_ms-101_3r1");
    assert_eq!(recs[1].ord, 6);
    assert_eq!(recs[1].page_refs, vec!["3r[1]"]);
    assert_eq!(first_invalid_id(&recs), None);
}

#[test]
fn invalid_ids_are_found() {
    let meta = DocMeta { doc: "Ms-1".to_string(), doc_slug: "ms-1".to_string(), doctype: "Ms".to_string() };
    let remark = |frag: &str| Remark {
        page_refs: vec![],
        fragment: frag.to_string(),
        image_url: None,
        date: None,
        date_sort: None,
        series_number: None,
        content: "x".to_string(),
        works: vec![],
    };
    let mut ord: u32 = 0;
    let recs = records_for_file(&meta, &[remark("a1"), remark("b.2")], "de", "/{slug}/#{frag}", &mut ord);
    assert_eq!(recs[1].url, "/ms-1/#b.2");
    assert_eq!(first_invalid_id(&recs), Some(1));
}

#[test]
fn indexable_files_exclude_works_and_navigation() {
    assert!(is_indexable("Ms-101.md"));
    assert!(!is_indexable("W-PI.md"));
    assert!(!is_indexable("index.md"));
    assert!(!is_indexable("docs-by-date.md"));
    assert!(!is_indexable("Ms-101.txt"));
}

#[test]
fn document_order_is_numeric_with_suffixes_last() {
    assert_eq!(doc_order_key("Ms-227a"), ("Ms".to_string(), 227, "a".to_string()));
    assert_eq!(doc_order_key("Ts-9"), ("Ts".to_string(), 9, String::new()));
    assert_eq!(doc_order_key("about"), ("about".to_string(), 0, String::new()));
    assert_eq!(doc_order_key("Ms-99999999999999999999"), ("Ms".to_string(), 0, String::new()));
    let mut names = vec!["Ts-227b", "Ms-10", "Ts-227a", "Ms-9", "Ts-227"];
    names.sort_by_key(|n| doc_order_key(n));
    assert_eq!(names, vec!["Ms-9", "Ms-10", "Ts-227", "Ts-227a", "Ts-227b"]);
}

#[test]
fn records_point_at_their_rendered_pages() {
    let (meta, remarks) = parse_file(DOC).unwrap();
    let mut ord: u32 = 0;
    let de = records_for_file(&meta, &remarks, "de", "/{slug}/#{frag}", &mut ord);
    let en = records_for_file(&meta, &remarks, "en", "/en/{slug}/#{frag}", &mut ord);
    assert_eq!(rendered_page(&de[0]), "ms-101/index.html");
    assert_eq!(rendered_page(&en[0]), "en/ms-101/index.html");
    assert_eq!(page_key(&en[1]), "en/ms-101");
    assert!(has_anchor("<h3 id=\"1r2\">x</h3>", "1r2"));
    assert!(!has_anchor("<h3 id=\"1r22\">x</h3>", "1r2"));
    let mut all = de;
    all.extend(en);
    assert_eq!(count_records(&all), (2, 2, 0, 0));
}
