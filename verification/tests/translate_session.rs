use nachlass::translate::common::Remark;
use nachlass::translate::session::{
    adaptive_context, finish_translation, fix_instructions, format_duration, has_critical_issues,
    render_document, repair_fits, retry_message, segment_repair, SegmentRepair,
};
use nachlass::translate::verify::Issue;

fn issue(check: &str, description: &str) -> Issue {
    Issue {
        file: "Ms-1.md".to_string(),
        remark_id: "1".to_string(),
        check: check.to_string(),
        description: description.to_string(),
    }
}

fn strings(v: &[&str]) -> Vec<String> {
    v.iter().map(|s| s.to_string()).collect()
}

#[test]
fn context_keeps_the_most_recent_entries_that_fit() {
    let w = strings(&["aaaa", "bb", "c"]);
    assert_eq!(adaptive_context(&w, 3), strings(&["bb", "c"]));
    assert_eq!(adaptive_context(&w, 7), strings(&["aaaa", "bb", "c"]));
    assert_eq!(adaptive_context(&w, 0), Vec::<String>::new());
    // lengths count bytes
    assert_eq!(adaptive_context(&strings(&["ä", "x"]), 2), strings(&["x"]));
}

#[test]
fn durations_show_days_hours_minutes() {
    assert_eq!(format_duration(0), "0m");
    assert_eq!(format_duration(59), "0m");
    assert_eq!(format_duration(3661), "1h 1m");
    assert_eq!(format_duration(90061), "1d 1h 1m");
    assert_eq!(format_duration(86400), "1d 0h 0m");
}

#[test]
fn critical_issues_are_structure_length_untranslated() {
    assert!(!has_critical_issues(&[]));
    assert!(!has_critical_issues(&[issue("emphasis", "x"), issue("quotes", "y")]));
    assert!(has_critical_issues(&[issue("quotes", "y"), issue("length", "z")]));
    assert!(has_critical_issues(&[issue("untranslated", "z")]));
    assert!(has_critical_issues(&[issue("structure", "z")]));
}

#[test]
fn instructions_are_distinct_and_specific() {
    let de = "Ein _a_ und _b_ <math>x</math> <i>k</i>";
    let issues = [
        issue("emphasis", "Underscore count differs"),
        issue("quotes", "Straight quotes"),
        issue("quotes", "Straight quotes again"),
        issue("structure", "Math block count differs"),
        issue("length", "possible truncation"),
        issue("other", "free text"),
    ];
    let text = fix_instructions(&issues, de);
    let lines: Vec<&str> = text.split('\n').collect();
    assert_eq!(lines[0], "The original has exactly 4 underscore (_) characters for emphasis. Your translation must also have exactly 4 underscores.");
    assert_eq!(lines[1], "Use English curly quotes \u{201c}...\u{201d} for quotations. NEVER use straight ASCII double quotes (\").");
    assert_eq!(lines[2], "Your translation MUST contain these exact math blocks, copied verbatim:");
    assert_eq!(lines[3], "<math>x</math>");
    assert_eq!(lines[4], "Translate the ENTIRE text from beginning to end. Do not skip, summarize, or omit any sentences.");
    assert_eq!(lines[5], "free text");
    assert_eq!(lines.len(), 6);
    let tags = fix_instructions(&[issue("structure", "HTML tags differ")], de);
    assert_eq!(tags, "Your translation MUST contain these exact HTML tags, copied verbatim: <i>, </i>");
    assert_eq!(fix_instructions(&[], de), "");
}

#[test]
fn retry_message_carries_glossary_checklist_and_instructions() {
    let m = retry_message("Satz: sentence", "Hallo", "Do it.");
    assert!(m.starts_with("Use the following glossary"));
    assert!(m.contains("Satz: sentence\n\n"));
    assert!(m.ends_with("Do it.\n\nGerman text:\n\nHallo"));
    let plain = retry_message("", "Hallo", "Do it.");
    assert_eq!(
        plain,
        "Translate the following German text to English.\n\nIMPORTANT \u{2014} a previous translation attempt had problems. Make sure your translation avoids them:\n\nDo it.\n\nGerman text:\n\nHallo"
    );
}

#[test]
fn finishing_restores_emphasis_and_math() {
    let blocks = vec!["<math>x</math>".to_string()];
    let out = finish_translation("A <em>b</em> \u{27E6}MATH:1\u{27E7}", true, "A _b_ <math>x</math>", &blocks);
    assert_eq!(out, "A _b_ <math>x</math>");
}

#[test]
fn documents_are_written_remark_by_remark() {
    let rs = vec![
        Remark { heading: "### 1".to_string(), body: "Eins".to_string() },
        Remark { heading: "### 2".to_string(), body: "Zwei".to_string() },
    ];
    assert_eq!(render_document("# T\n", &rs), "# T\n\n### 1\n\nEins\n\n### 2\n\nZwei\n");
}

#[test]
fn segments_are_kept_stripped_or_sent_back() {
    assert_eq!(segment_repair("Ein _a_.", "A _a_."), SegmentRepair::Keep);
    assert_eq!(segment_repair("Kein.", "No _x_ **y**."), SegmentRepair::Strip("No x y.".to_string()));
    assert_eq!(segment_repair("Kein.", "No."), SegmentRepair::Keep);
    assert_eq!(segment_repair("Ein _a_.", "An a."), SegmentRepair::Ask("German: Ein _a_.\nEnglish: An a.".to_string()));
    assert!(repair_fits(" _x_ ", "_a_"));
    assert!(!repair_fits("x", "_a_"));
}
