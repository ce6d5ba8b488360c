use nachlass::translate::common::{parse_document, Remark};
use nachlass::translate::deepl::{
    attempted_remarks, deepl_context, deepl_outcome, deepl_targets, quota_exceeded, tracking_entry,
};
use nachlass::translate::flow::{
    changed_to_translate, migrate_document, next_remark_action, remark_start, remark_step, remarks_to_fix,
    resume_point, work_ready, apply_fixes, assemble_repair, trim_window, ModelEvent, NextRemark, RemarkAction,
    RemarkState,
};
use nachlass::translate::check::check_report;
use nachlass::translate::session::render_document;
use nachlass::translate::verify::Issue;

fn remark(heading: &str, body: &str) -> Remark {
    Remark { heading: heading.to_string(), body: body.to_string() }
}

fn strings(v: &[&str]) -> Vec<String> {
    v.iter().map(|s| s.to_string()).collect()
}

fn issue(file: &str, rid: &str, check: &str, description: &str) -> Issue {
    Issue {
        file: file.to_string(),
        remark_id: rid.to_string(),
        check: check.to_string(),
        description: description.to_string(),
    }
}

fn state(attempt: usize, best: &str, html: bool) -> RemarkState {
    RemarkState { attempt, best_body: best.to_string(), restore_html: html }
}

#[test]
fn a_remark_starts_with_its_text_and_tags_for_emphasis() {
    let de = remark("### 1", "Das _ist_ so.");
    let (st, action) = remark_start(&de, "", &[]);
    assert_eq!(st.attempt, 0);
    assert_eq!(st.best_body, "Das _ist_ so.");
    assert!(st.restore_html);
    match action {
        RemarkAction::Ask(msg, html) => {
            assert!(html);
            assert!(msg.ends_with("Das <em>ist</em> so."));
        }
        _ => panic!("expected a request"),
    }
    let (st, _) = remark_start(&remark("### 1", "Die Welt."), "", &[]);
    assert!(!st.restore_html);
}

#[test]
fn a_failed_request_keeps_the_best_body() {
    let de = remark("### 1", "Die Welt.");
    let (st, action) = remark_step(&de, "", 4, &[], state(0, "Die Welt.", false), ModelEvent::Failed);
    assert_eq!(st.attempt, 0);
    match action {
        RemarkAction::Finish(body) => assert_eq!(body, "Die Welt."),
        _ => panic!("expected the German body"),
    }
}

#[test]
fn a_clean_reply_finishes_the_remark() {
    let de = remark("### 1", "Die Welt.");
    let (_, action) = remark_step(&de, "", 4, &[], state(0, "Die Welt.", false), ModelEvent::Reply("The world.".to_string()));
    match action {
        RemarkAction::Finish(body) => assert_eq!(body, "The world."),
        _ => panic!("expected to finish"),
    }
}

#[test]
fn a_reply_with_issues_is_asked_again_until_retries_run_out() {
    let de = remark("### 1", "Die Welt.");
    let reply = "\"The world.\"".to_string();
    let (st, action) = remark_step(&de, "", 4, &[], state(0, "Die Welt.", false), ModelEvent::Reply(reply.clone()));
    assert_eq!(st.attempt, 1);
    assert_eq!(st.best_body, reply);
    match action {
        RemarkAction::Ask(msg, html) => {
            assert!(!html);
            assert!(msg.contains("NEVER use straight ASCII double quotes"));
            assert!(msg.ends_with("German text:\n\nDie Welt."));
        }
        _ => panic!("expected a retry"),
    }
    let (st, action) = remark_step(&de, "", 4, &[], state(2, "Die Welt.", false), ModelEvent::Reply(reply.clone()));
    assert_eq!(st.attempt, 2);
    match action {
        RemarkAction::Finish(body) => assert_eq!(body, reply),
        _ => panic!("expected to finish with the last reply"),
    }
}

#[test]
fn emphasis_only_issues_are_repaired_by_segment() {
    let de = remark("### 1", "Das _ist_ so. Und _das_ auch.");
    let (st, action) = remark_step(
        &de,
        "",
        0,
        &[],
        state(0, "Das _ist_ so. Und _das_ auch.", false),
        ModelEvent::Reply("That is so. And that too.".to_string()),
    );
    assert!(matches!(action, RemarkAction::Repair));
    assert_eq!(st.best_body, "That is so. And that too.");
    let (_, action) = remark_step(&de, "", 0, &[], st, ModelEvent::Repaired(Some("That _is_ so. And _that_ too.".to_string())));
    match action {
        RemarkAction::Finish(body) => assert_eq!(body, "That _is_ so. And _that_ too."),
        _ => panic!("expected the repaired body"),
    }
    let (st, action) = remark_step(&de, "", 0, &[], state(0, "That is so. And that too.", false), ModelEvent::Repaired(None));
    assert_eq!(st.attempt, 1);
    assert!(matches!(action, RemarkAction::Ask(_, false)));
}

#[test]
fn the_next_remark_is_kept_reused_or_batched() {
    let remarks = vec![
        remark("### [1\\[1\\]](u)", ""),
        remark("### [1\\[2\\]](u)", "Eins."),
        remark("### [1\\[3\\]](u)", "Zwei."),
        remark("### [1\\[4\\]](u)", "Drei."),
    ];
    let skip = strings(&["Ms-1.md:1.2"]);
    assert!(matches!(next_remark_action(&remarks, 0, &skip, "Ms-1.md", &None, 1000), NextRemark::Verbatim));
    assert!(matches!(next_remark_action(&remarks, 1, &skip, "Ms-1.md", &None, 1000), NextRemark::Verbatim));
    assert!(matches!(next_remark_action(&remarks, 2, &skip, "Ms-1.md", &None, 1000), NextRemark::Translate(4)));
    assert!(matches!(next_remark_action(&remarks, 2, &skip, "Ms-1.md", &None, 3), NextRemark::Translate(3)));
    let de = "### 1\n\nDie Welt ist alles was der Fall ist und bleibt.\n";
    let en = "### 1\n\nThe world is all that is the case.\n";
    let map = Some(nachlass::translate::reuse::build_reuse_map(de, en));
    let rs = vec![remark("### 2", "Die Welt ist alles, was der Fall ist und bleibt!")];
    match next_remark_action(&rs, 0, &[], "Ms-1.md", &map, 1000) {
        NextRemark::Reuse(body) => assert_eq!(body, "The world is all that is the case."),
        _ => panic!("expected reuse"),
    }
}

#[test]
fn resuming_takes_the_last_non_blank_bodies_as_context() {
    let mut done: Vec<Remark> = (0..12).map(|k| remark("### x", &format!("b{}", k))).collect();
    done[11].body = "  ".to_string();
    let (skip, ctx) = resume_point(&done);
    assert_eq!(skip, 12);
    assert_eq!(ctx, strings(&["b2", "b3", "b4", "b5", "b6", "b7", "b8", "b9", "b10"]));
    let (skip, ctx) = resume_point(&[]);
    assert_eq!(skip, 0);
    assert!(ctx.is_empty());
}

#[test]
fn remarks_with_issues_are_fixed_skip_list_aside() {
    let de = vec![remark("### [1\\[1\\]](u)", "Die Welt."), remark("### [1\\[2\\]](u)", "Die Welt."), remark("### [1\\[3\\]](u)", "Die Welt.")];
    let en = vec![remark("### 1", "The world."), remark("### 2", "\"The world.\""), remark("### 3", "\"The world.\"")];
    let skip = strings(&["Ms-1.md:1.3"]);
    assert_eq!(remarks_to_fix("Ms-1.md", &de, &en, &skip, 4, &[]), vec![1]);
    assert_eq!(remarks_to_fix("Ms-1.md", &de, &en[..1], &skip, 4, &[]), Vec::<usize>::new());
}

#[test]
fn changed_remarks_need_both_sides_and_no_skip_entry() {
    let changed = vec![(0usize, "a".to_string()), (5, "b".to_string()), (1, "c".to_string())];
    let skip = strings(&["f.md:c"]);
    assert_eq!(changed_to_translate(&changed, 3, 3, &skip, "f.md"), vec![(0usize, "a".to_string())]);
}

#[test]
fn headings_are_migrated_where_anchors_agree() {
    let de = "P\n\n### [1\\[1\\]](u) neu\n\nEins\n\n### [1\\[2\\]](u)\n\nZwei\n";
    let en = "Q\n\n### [1\\[1\\]](u)\n\nOne\n\n### [9\\[9\\]](u)\n\nTwo\n";
    let (pre, _) = parse_document(de);
    let expected = render_document(
        &pre,
        &[remark("### [1\\[1\\]](u) neu", "One"), remark("### [9\\[9\\]](u)", "Two")],
    );
    assert_eq!(migrate_document(de, en), Some((expected, 1)));
    assert_eq!(migrate_document(de, "### [1\\[1\\]](u)\n\nOne\n"), None);
    assert_eq!(migrate_document(de, de), None);
}

#[test]
fn logged_remarks_are_read_line_by_line() {
    let tracking = "# Remarks translated via DeepL\n\n## Ms-1.md:1.1\n\n**Issue:** x\n\n## Ms-2.md:3\n\n## \n";
    assert_eq!(attempted_remarks(tracking), strings(&["Ms-1.md:1.1", "Ms-2.md:3"]));
}

#[test]
fn deepl_targets_are_sorted_distinct_and_new() {
    let issues = vec![
        issue("Ms-1.md", "2", "quotes", "q"),
        issue("Ms-1.md", "1", "quotes", "q"),
        issue("Ms-1.md", "2", "length", "l"),
        issue("Ms-2.md", "1", "quotes", "q"),
        issue("Ms-1.md", "", "structure", "s"),
        issue("Ms-9.md", "1", "quotes", "q"),
    ];
    let existing = strings(&["Ms-1.md", "Ms-2.md"]);
    let got = deepl_targets(&issues, &existing, "## Ms-2.md:1\n");
    assert_eq!(got, vec![("Ms-1.md".to_string(), "1".to_string()), ("Ms-1.md".to_string(), "2".to_string())]);
    assert_eq!(deepl_targets(&issues, &existing, "").len(), 3);
}

#[test]
fn deepl_outcomes_keep_translations_without_critical_issues() {
    assert_eq!(deepl_outcome(true, &[]), (true, "fixed".to_string()));
    assert_eq!(deepl_outcome(false, &[]), (false, "unchanged (critical issues)".to_string()));
    assert_eq!(
        deepl_outcome(true, &[issue("f", "1", "emphasis", "Underscore count differs")]),
        (true, "fixed (minor issues: emphasis: Underscore count differs)".to_string())
    );
    assert_eq!(
        deepl_outcome(true, &[issue("f", "1", "emphasis", "x"), issue("f", "1", "length", "y")]),
        (false, "unchanged (critical issues)".to_string())
    );
}

#[test]
fn tracking_entries_log_the_whole_attempt() {
    let issues = vec![issue("f.md", "1", "quotes", "q"), issue("f.md", "2", "length", "l"), issue("f.md", "1", "length", "m")];
    let entry = tracking_entry("f.md", "1", &issues, "fixed", "Die Welt.", "World.", "The world.", true);
    assert_eq!(
        entry,
        "## f.md:1\n\n**Issue:** quotes: q; length: m\n\n**Status:** fixed\n\n**German:**\n\nDie Welt.\n\n**Old translation:**\n\nWorld.\n\n**DeepL translation:**\n\nThe world.\n\n---\n\n"
    );
    let entry = tracking_entry("f.md", "1", &issues, "unchanged (critical issues)", "D", "O", "N", false);
    assert!(entry.contains("**DeepL translation (not used \u{2014} failed verification):**\n\nN\n\n"));
}

#[test]
fn rendered_documents_parse_back() {
    let rs = vec![remark("### [1\\[1\\]](u)", "Eins\n\nzwei"), remark("### 2", ""), remark("### 3", "Drei.")];
    let pre = "---\ntitle: x\n---\n";
    let (p, back) = parse_document(&render_document(pre, &rs));
    assert_eq!(p, pre);
    assert_eq!(back.len(), rs.len());
    for (a, b) in back.iter().zip(rs.iter()) {
        assert_eq!(a.heading, b.heading);
        assert_eq!(a.body, b.body);
    }
}

#[test]
fn works_are_ready_when_all_sources_are_translated() {
    assert!(work_ready(&strings(&["a.md", "b.md"]), &strings(&["b.md", "a.md", "c.md"])));
    assert!(!work_ready(&strings(&["a.md", "d.md"]), &strings(&["a.md"])));
    assert!(!work_ready(&[], &strings(&["a.md"])));
}

#[test]
fn deepl_context_joins_terms_and_previous_remark() {
    assert_eq!(deepl_context("", None), None);
    assert_eq!(deepl_context("T", None), Some("T".to_string()));
    assert_eq!(deepl_context("", Some("P")), Some("P".to_string()));
    assert_eq!(deepl_context("T", Some("P")), Some("T\n\nP".to_string()));
}

#[test]
fn quota_errors_stop_the_run() {
    assert!(quota_exceeded("DeepL API error 456: Quota exceeded"));
    assert!(!quota_exceeded("DeepL API error 500"));
}

#[test]
fn fixes_replace_only_changed_bodies() {
    let en = vec![remark("### 1", "One"), remark("### 2", "Two")];
    let fixes = vec![(0usize, "### 1 new".to_string(), "One".to_string()), (1, "### 2 new".to_string(), "Deux".to_string()), (5, "x".to_string(), "y".to_string())];
    let (rs, changed) = apply_fixes(en, &fixes);
    assert!(changed);
    assert_eq!(rs[0].heading, "### 1");
    assert_eq!((rs[1].heading.as_str(), rs[1].body.as_str()), ("### 2 new", "Deux"));
    let (_, changed) = apply_fixes(vec![remark("### 1", "One")], &[(0, "h".to_string(), "One".to_string())]);
    assert!(!changed);
}

#[test]
fn the_context_window_keeps_ten_entries() {
    let w: Vec<String> = (0..12).map(|k| format!("c{}", k)).collect();
    assert_eq!(trim_window(&w), w[2..].to_vec());
    assert_eq!(trim_window(&w[..3]), w[..3].to_vec());
}

#[test]
fn repaired_segments_are_joined_with_spaces() {
    let segs = strings(&["A b.", "C d."]);
    assert_eq!(assemble_repair(&segs, &[None, None]), None);
    assert_eq!(assemble_repair(&segs, &[None, Some("C _d_.".to_string())]), Some("A b. C _d_.".to_string()));
}

#[test]
fn the_check_lists_missing_stale_and_quality() {
    let (broken, lines) = check_report(&strings(&["a.md:1"]), &strings(&["b.md:2"]), &[issue("c.md", "3", "length", "d")]);
    assert!(broken);
    assert_eq!(lines, strings(&["MISSING a.md:1", "STALE b.md:2", "QUALITY c.md:3 [length] d"]));
    let (broken, lines) = check_report(&[], &[], &[]);
    assert!(!broken && lines.is_empty());
}
