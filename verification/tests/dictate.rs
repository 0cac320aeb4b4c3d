use apiary::dictate::{apply_ops_to_string, diff, pcm_samples, reconcile, word_diff, words_lower};

fn round_trip(have: &str, want: &str) -> String {
    let mut f = have.to_string();
    apply_ops_to_string(&mut f, &reconcile(have, want));
    f
}

#[test]
fn diff_round_trips() {
    for (have, want) in [
        ("", "hello world"),
        ("hello", "hello world"),
        ("Alright, here's a test", "All right, here's a test"),
        ("the cat sat on the mat", "the dog sat on the rug"),
        ("abc", "xyz"),
        ("hello world", "hello"),
        ("one two three four", "one TWO three FOUR five"),
    ] {
        assert_eq!(round_trip(have, want), want, "{have:?} -> {want:?}");
    }
}

#[test]
fn diff_touches_only_the_changed_regions() {
    // Two separate word changes → two hunks; the middle is left alone.
    assert_eq!(diff("the cat sat on the mat", "the dog sat on the rug").len(), 2);
}

#[test]
fn word_diff_reports_drops_and_inserts() {
    let a = words_lower("The quick, brown fox.");
    let b = words_lower("the brown lazy fox");
    let d = word_diff(&a, &b);
    let dropped: Vec<&str> = d.iter().filter(|(t, _)| *t == '-').map(|(_, w)| w.as_str()).collect();
    let inserted: Vec<&str> = d.iter().filter(|(t, _)| *t == '+').map(|(_, w)| w.as_str()).collect();
    assert_eq!(dropped, ["quick"]);
    assert_eq!(inserted, ["lazy"]);
}

fn pcm_to_f32(bytes: &[u8]) -> (Vec<f32>, Option<u8>) {
    let (samples, leftover) = pcm_samples(bytes);
    (samples.into_iter().map(|s| s as f32 / 32768.0).collect(), leftover)
}

#[test]
fn pcm_decodes_samples_and_keeps_the_odd_byte() {
    let (samples, leftover) = pcm_to_f32(&[0x00, 0x00, 0xFF, 0x7F, 0x42]);
    assert_eq!(samples.len(), 2);
    assert_eq!(samples[0], 0.0);
    assert!((samples[1] - 0.99997).abs() < 1e-4);
    assert_eq!(leftover, Some(0x42));
}
