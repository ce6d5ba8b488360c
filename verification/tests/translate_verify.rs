use nachlass::translate::common::Remark;
use nachlass::translate::verify::{check_german_words, tags_differ_description, verify_remark, Issue};

fn remark(body: &str) -> Remark {
    Remark { heading: "### [1\\[1\\]](u)".to_string(), body: body.to_string() }
}

fn run(de: &str, en: &str, ignore: &[String]) -> Vec<(String, String)> {
    let mut issues: Vec<Issue> = Vec::new();
    verify_remark("Ms-1.md", 0, "1.1", &remark(de), &remark(en), &mut issues, 0, ignore);
    for i in &issues {
        assert_eq!(i.file, "Ms-1.md");
        assert_eq!(i.remark_id, "1.1");
    }
    issues.into_iter().map(|i| (i.check, i.description)).collect()
}

#[test]
fn faithful_translation_has_no_issues() {
    assert!(run("Hallo _Welt_", "Hello _world_", &[]).is_empty());
}

#[test]
fn math_blocks_must_match() {
    let got = run("a <math><mi>x</mi></math> b", "a b", &[]);
    assert_eq!(got, vec![("structure".to_string(), "Math block count mismatch: DE has 1, EN has 0".to_string())]);
    let got = run("<math><mi>x</mi></math>", "<math><mi>y</mi></math>", &[]);
    assert_eq!(got, vec![("structure".to_string(), "Math block 1 differs between DE and EN".to_string())]);
}

#[test]
fn html_tags_are_listed_in_debug_form() {
    let got = run("<b>Wort</b>", "word", &[]);
    let expected = format!("HTML tags differ: DE {:?} vs EN {:?}", vec!["<b>", "</b>"], Vec::<String>::new());
    assert_eq!(got, vec![("structure".to_string(), expected.clone())]);
    assert_eq!(tags_differ_description("[\"<b>\"]", "[]"), "HTML tags differ: DE [\"<b>\"] vs EN []");
}

#[test]
fn emphasis_counts_are_compared() {
    let got = run("_a_ **b**", "a b", &[]);
    assert_eq!(
        got,
        vec![
            ("emphasis".to_string(), "Underscore count mismatch: DE has 2, EN has 0".to_string()),
            ("emphasis".to_string(), "Asterisk count mismatch: DE has 4, EN has 0".to_string()),
        ]
    );
}

#[test]
fn straight_quotes_are_flagged_by_line() {
    let got = run("Er sagte „ja“.\nGut.", "Fine.\nHe said \"yes\".", &[]);
    assert_eq!(got, vec![("quotes".to_string(), "Undirected double quote: line 2: He said \"yes\".".to_string())]);
    // quotes inside tags do not count
    assert!(run("<a href=\"x\">Haus</a>", "<a href=\"x\">home</a>", &[]).is_empty());
}

#[test]
fn length_ratio_is_reported_with_two_decimals() {
    let de = "Dies ist ein recht langer deutscher Satz.";
    let got = run(de, "Short", &[]);
    let ratio = format!("{:.2}", 5f64 / de.len() as f64);
    assert_eq!(
        got,
        vec![("length".to_string(), format!("Possible truncation: ratio {} (DE {} chars, EN 5 chars)", ratio, de.len()))]
    );
    let en = "This is a rather long English sentence that goes on and on and on and on and on.";
    let got = run("Ein kurzer deutscher Satz.", en, &[]);
    let ratio = format!("{:.2}", en.len() as f64 / 26f64);
    assert_eq!(
        got,
        vec![("length".to_string(), format!("Possible hallucination: ratio {} (DE 26 chars, EN {} chars)", ratio, en.len()))]
    );
}

#[test]
fn german_letters_and_words_are_flagged() {
    let got = run("Schön", "Schön übel ärgerlich öde", &[]);
    assert!(got.contains(&("untranslated".to_string(), "English contains 4 German-specific characters (ä/ö/ü/ß)".to_string())));
    let got = run("Das Wort Zeitgeist ist schön", "The word Zeitgeist is nice", &[]);
    assert_eq!(got, vec![("german_words".to_string(), "English contains 1 word(s) from German original: zeitgeist".to_string())]);
    assert!(run("Das Wort Zeitgeist ist schön", "The word Zeitgeist is nice", &["zeitgeist".to_string()]).is_empty());
}

#[test]
fn shared_words_are_sorted_and_unique() {
    let words = check_german_words("Zeta Alpha Zeta beta", "alpha zeta BETA", &[]);
    assert_eq!(words, vec!["alpha", "beta", "zeta"]);
}
