use nachlass::translate::batch::{batch_end, batch_message, restore_batch_part, split_batch_reply};
use nachlass::translate::common::Glossary;

fn strings(v: &[&str]) -> Vec<String> {
    v.iter().map(|s| s.to_string()).collect()
}

#[test]
fn batches_stop_at_blank_reusable_or_full() {
    let bodies = strings(&["aaa", "bb", " ", "c"]);
    let none = [false; 4];
    assert_eq!(batch_end(&bodies, &none, 0, 4), 1);
    assert_eq!(batch_end(&bodies, &none, 0, 5), 2);
    assert_eq!(batch_end(&bodies, &none, 0, 0), 1);
    assert_eq!(batch_end(&bodies, &[false, true, false, false], 0, 100), 1);
    assert_eq!(batch_end(&bodies, &none, 2, 100), 2);
    assert_eq!(batch_end(&bodies, &none, 3, 100), 4);
    assert_eq!(batch_end(&bodies, &none, 4, 100), 4);
}

#[test]
fn batch_requests_number_passages_and_math() {
    let bodies = strings(&["Ein _Satz_ <math>a</math>", "Zwei <math>b</math>"]);
    let g = Glossary::parse("Satz = proposition\n");
    let (msg, blocks) = batch_message(&bodies, &g, &strings(&["ctx"]));
    let expected = "Use the following glossary for established translations of key philosophical terms. Follow these conventions strictly:\n\n\
Satz = proposition\n\n\n\
Context (already translated preceding remarks):\n\nctx\n\n---\n\n\
Translate each of the following 2 numbered German passages to English. Output your translations in the same numbered format ([1], [2], etc.).\n\
Preserve all HTML tags (<em>, </em>, etc.) exactly.\n\n\
[1]\nEin <em>Satz</em> \u{27E6}MATH:1\u{27E7}\n\n[2]\nZwei \u{27E6}MATH:2\u{27E7}";
    assert_eq!(msg, expected);
    assert_eq!(blocks, vec![strings(&["<math>a</math>"]), strings(&["<math>b</math>"])]);
    let (plain, _) = batch_message(&strings(&["x"]), &Glossary::empty(), &[]);
    assert!(plain.starts_with("Translate each of the following 1 numbered"));
}

#[test]
fn replies_split_at_numbered_markers() {
    let reply = "[1]\nOne _a_.\n\n[2] Two\n[x]\n[99999999999999999999999] z";
    assert_eq!(
        split_batch_reply(reply),
        vec![(1, "One _a_.\n\n".to_string()), (2, "Two\n[x]\n".to_string())]
    );
    assert!(split_batch_reply("no markers").is_empty());
    assert_eq!(split_batch_reply("x [1] y\n[3]\tz"), vec![(3, "z".to_string())]);
}

#[test]
fn batch_passages_get_their_math_back() {
    let out = restore_batch_part("  <em>One</em> \u{27E6}MATH:2\u{27E7} ", "Ein _a_ <math>b</math>", &strings(&["<math>b</math>"]), 1);
    assert_eq!(out, "_One_ <math>b</math>");
}
