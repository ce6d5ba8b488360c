use nachlass::translate::common::{
    anchor_from_doc_heading, count_emphasized_segments, deepl_ambiguous_context, deepl_api_base,
    deepl_glossary_entries, detect_changed_remarks, emphasis_checklist, emphasis_from_html, emphasis_to_html,
    extract_math, fix_emphasis_markers, parse_document, restore_math, split_segments,
    translation_system_prompt, translation_user_msg, Glossary,
};

const GLOSSARY: &str = "# Glossar\n\nSatz = proposition\nZug (Spielzug) = move\nSinn = sense / meaning\nBild = picture, image\nSatz = sentence\nHaus = house (building)\n\n## Principles\nBe faithful.\n";

#[test]
fn documents_split_into_preamble_and_remarks() {
    let (pre, rs) = parse_document("---\ntitle: x\n---\n### 1\n\n Eins \n\n### 2\nZwei\nDrei\n");
    assert_eq!(pre, "---\ntitle: x\n---");
    assert_eq!(rs.len(), 2);
    assert_eq!(rs[0].heading, "### 1");
    assert_eq!(rs[0].body, "Eins");
    assert_eq!(rs[1].body, "Zwei\nDrei");
    let (pre, rs) = parse_document("no remarks\nhere");
    assert_eq!(pre, "no remarks\nhere");
    assert!(rs.is_empty());
}

#[test]
fn anchors_come_from_page_links() {
    assert_eq!(anchor_from_doc_heading("### [1\\[1\\]](u)"), "1.1");
    assert_eq!(
        anchor_from_doc_heading("### <span class=\"fac\">[1r\\[2\\]](a),[2r\\[1\\]](b)</span> [PI 1](/w-pi/#x)"),
        "1r.2+2r.1"
    );
    assert_eq!(anchor_from_doc_heading("### plain"), "");
}

#[test]
fn changed_and_new_remarks_are_detected() {
    let old = "### [1\\[1\\]](u)\n\nA\n\n### [1\\[2\\]](u)\n\nB\n";
    let new = "### [1\\[1\\]](u)\n\nA\n\n### [1\\[2\\]](u)\n\nB2\n\n### [1\\[3\\]](u)\n\nC\n\n### none\n\nD\n";
    assert_eq!(detect_changed_remarks(old, new), vec![(1, "1.2".to_string()), (2, "1.3".to_string())]);
    assert!(detect_changed_remarks(new, new).is_empty());
}

#[test]
fn glossary_terms_and_general_section() {
    let g = Glossary::parse(GLOSSARY);
    assert!(g.has_terms());
    assert_eq!(g.general_section(), "## Principles\nBe faithful.\n");
    assert_eq!(g.term_entries().len(), 6);
    assert_eq!(g.term_entries()[1].0, "zug");
    assert_eq!(g.filter_for("Der Zug. Ein  SATZ"), "Satz = proposition\nZug (Spielzug) = move\nSatz = sentence\n");
    assert_eq!(g.filter_for("nichts"), "");
    let e = Glossary::empty();
    assert!(!e.has_terms());
    assert_eq!(e.filter_for("Satz"), "");
}

#[test]
fn deepl_keys_choose_the_endpoint() {
    assert_eq!(deepl_api_base("abc:fx"), "https://api-free.deepl.com");
    assert_eq!(deepl_api_base("abc"), "https://api.deepl.com");
}

#[test]
fn ambiguous_entries_become_context_and_the_rest_a_table() {
    let g = Glossary::parse(GLOSSARY);
    assert_eq!(
        deepl_ambiguous_context(&g),
        "Translation glossary for context-dependent terms (choose the appropriate translation):\nSinn = sense / meaning\nBild = picture, image\n\n## Principles\nBe faithful.\n"
    );
    let (tsv, ambiguous) = deepl_glossary_entries(&g);
    assert_eq!(ambiguous, 2);
    assert_eq!(tsv, "Satz\tproposition\nZug\tmove\nHaus\thouse\n");
    assert_eq!(deepl_ambiguous_context(&Glossary::parse("Satz = proposition\n")), "");
}

#[test]
fn emphasis_round_trips_through_html() {
    let html = emphasis_to_html("Ein _Satz_ und **fett**");
    assert_eq!(html, "Ein <em>Satz</em> und <strong>fett</strong>");
    assert_eq!(emphasis_from_html(&html), "Ein _Satz_ und **fett**");
}

#[test]
fn emphasis_markers_follow_the_german() {
    assert_eq!(fix_emphasis_markers("a **b** *c* &amp; d", "a _b_ c"), "a _b_ _c_ & d");
    assert_eq!(fix_emphasis_markers("a **b**", "a **b**"), "a **b**");
}

#[test]
fn checklist_lists_emphasized_passages() {
    assert_eq!(emphasis_checklist("kein"), "");
    assert_eq!(
        emphasis_checklist("Ein _a_ und **b** und _c_"),
        "The input contains 3 emphasized passage(s) wrapped in _underscores_ or **double asterisks**: _a_, _c_, **b**.\nYour translation MUST wrap the English translations of these exact words in the same markers (_underscores_ or **double asterisks**).\n\n"
    );
}

#[test]
fn math_blocks_round_trip() {
    let text = "x <math>a</math> y <math display=\"block\">b\nc</math> z <mathx>";
    let (masked, blocks) = extract_math(text);
    assert_eq!(masked, "x \u{27E6}MATH:1\u{27E7} y \u{27E6}MATH:2\u{27E7} z <mathx>");
    assert_eq!(blocks, vec!["<math>a</math>".to_string(), "<math display=\"block\">b\nc</math>".to_string()]);
    assert_eq!(restore_math(&masked, &blocks), text);
}

#[test]
fn segments_split_at_sentence_ends() {
    assert_eq!(split_segments("Eins. Zwei? \u{201e}Drei\u{201c} vier.3 Fünf"), vec!["Eins.", "Zwei?", "\u{201e}Drei\u{201c} vier.3 Fünf"]);
    assert_eq!(split_segments(""), vec![""]);
    assert_eq!(count_emphasized_segments("Ein _a_. Zwei. **Drei**."), 2);
}

#[test]
fn prompts_carry_glossary_and_context() {
    let sys = translation_system_prompt("G");
    assert!(sys.starts_with("Translate German to idiomatic English."));
    assert!(sys.ends_with("\n\nG"));
    assert!(!translation_system_prompt("").ends_with("\n\n"));
    let msg = translation_user_msg("Text", &["A".to_string(), "B".to_string()], "");
    assert_eq!(msg, "Context (already translated preceding remarks):\n\nA\n\n---\n\nB\n\n---\n\nTranslate the following:\n\nText");
    assert_eq!(translation_user_msg("Text", &[], ""), "Text");
}
