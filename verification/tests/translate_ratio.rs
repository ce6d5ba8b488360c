use nachlass::translate::ratio::length_verdict;

fn reference(el: u128, dl: u128) -> (bool, bool, String) {
    let ratio = el as f64 / dl as f64;
    (ratio < 0.3, ratio > 2.0, format!("{:.2}", ratio))
}

fn ours(el: u128, dl: u128) -> (bool, bool, String) {
    let (below, above, h) = length_verdict(el, dl);
    (below, above, format!("{}.{:02}", h / 100, h % 100))
}

#[test]
fn ratio_matches_float_formatting_on_small_lengths() {
    for dl in 21u128..400 {
        for el in 0u128..1000 {
            assert_eq!(ours(el, dl), reference(el, dl), "el {} dl {}", el, dl);
        }
    }
}

#[test]
fn ratio_rounds_as_the_float_does() {
    assert_eq!(ours(3, 200), (true, false, "0.01".to_string()));
    assert_eq!(ours(29, 200), (true, false, "0.14".to_string()));
    assert_eq!(ours(25, 200), (true, false, "0.12".to_string()));
    assert_eq!(ours(3, 10), reference(3, 10));
    assert_eq!(ours(60, 21), (false, true, "2.86".to_string()));
}

#[test]
fn ratio_matches_float_formatting_on_large_lengths() {
    let mut x: u128 = 0x1234_5678_9abc_def1;
    for _ in 0..20000 {
        x = x.wrapping_mul(6364136223846793005).wrapping_add(1442695040888963407) % (1u128 << 66);
        let el = x >> (x % 60);
        x = x.wrapping_mul(6364136223846793005).wrapping_add(1442695040888963407) % (1u128 << 66);
        let dl = (x >> (x % 60)).max(21);
        assert_eq!(ours(el, dl), reference(el, dl), "el {} dl {}", el, dl);
    }
}
