use nachlass::search::slug::{github_slug, unescape_label};

#[test]
fn matches_rendered_document_ids() {
    assert_eq!(github_slug("IIr[1]"), "iir1");
    assert_eq!(github_slug("1r[2]2r[1]"), "1r22r1");
    assert_eq!(github_slug("1[1]"), "11");
    assert_eq!(github_slug("1[3]2[1]"), "1321");
    assert_eq!(github_slug("2r[3]3r[1]"), "2r33r1");
}

#[test]
fn unescape_strips_backslashes() {
    assert_eq!(unescape_label("1r\\[2\\]"), "1r[2]");
    assert_eq!(unescape_label("IIr\\[1\\]"), "IIr[1]");
}

#[test]
fn full_pipeline_matches() {
    let labels = ["1r\\[2\\]", "2r\\[1\\]"];
    let joined: String = labels.iter().map(|l| unescape_label(l)).collect();
    assert_eq!(github_slug(&joined), "1r22r1");
}

#[test]
fn slug_collapses_spaces_and_hyphens() {
    assert_eq!(github_slug("  Hello -- World  "), "hello-world");
    assert_eq!(github_slug("a_b c"), "ab-c");
    assert_eq!(github_slug("-x"), "x");
}

#[test]
fn slug_drops_underscores_and_punctuation() {
    assert_eq!(github_slug("a_b"), "ab");
    assert_eq!(github_slug("  Tractatus -- Logico_Philosophicus! "), "tractatus-logicophilosophicus");
}
