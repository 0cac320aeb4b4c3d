use apiary::dictate::{
    apply_ops_to_string, key_for, parse_pid, pcm_samples, reconcile, word_diff, words_lower, words_tagged,
    DecodeState, Op, PcmCarry, Replay, Typist,
};

fn typed_and_backed(ops: &[Op]) -> (usize, usize) {
    let mut typed = 0;
    let mut backed = 0;
    for op in ops {
        match op {
            Op::Type(t) => typed += t.chars().count(),
            Op::Back(n) => backed += n,
            _ => {}
        }
    }
    (typed, backed)
}

#[test]
fn reconcile_revision_round_trips() {
    let ops = reconcile("the cat sat", "the dog sat");
    let mut f = String::from("the cat sat");
    apply_ops_to_string(&mut f, &ops);
    assert_eq!(f, "the dog sat");
}

#[test]
fn reconcile_types_only_what_is_new() {
    // "hello world" -> "hello there world": the common subsequence is the
    // whole old text, so six characters are typed and none deleted.
    let ops = reconcile("hello world", "hello there world");
    assert_eq!(typed_and_backed(&ops), (6, 0));
    let mut f = String::from("hello world");
    apply_ops_to_string(&mut f, &ops);
    assert_eq!(f, "hello there world");
}

#[test]
fn reconcile_deletes_only_what_is_gone() {
    let ops = reconcile("hello there world", "hello world");
    assert_eq!(typed_and_backed(&ops), (0, 6));
}

#[test]
fn reconcile_identical_is_no_op() {
    assert_eq!(reconcile("same text", "same text"), vec![]);
}

#[test]
fn reconcile_from_empty_types_everything() {
    assert_eq!(reconcile("", "hi"), vec![Op::Type("hi".to_string())]);
}

#[test]
fn reconcile_to_empty_backspaces_everything() {
    assert_eq!(reconcile("abc", ""), vec![Op::Back(3)]);
}

#[test]
fn reconcile_non_ascii_counts_characters() {
    let ops = reconcile("café", "cafés");
    assert_eq!(typed_and_backed(&ops), (1, 0));
    let mut f = String::from("café");
    apply_ops_to_string(&mut f, &ops);
    assert_eq!(f, "cafés");
}

#[test]
fn apply_ops_clamps_the_cursor() {
    let mut f = String::from("abc");
    apply_ops_to_string(&mut f, &[Op::Left(10), Op::Type("x".into())]);
    assert_eq!(f, "xabc");
    let mut g = String::from("abc");
    apply_ops_to_string(&mut g, &[Op::Left(1), Op::Right(5), Op::Type("!".into())]);
    assert_eq!(g, "abc!");
    let mut h = String::from("abc");
    apply_ops_to_string(&mut h, &[Op::Back(7)]);
    assert_eq!(h, "");
}

#[test]
fn pcm_samples_signed_little_endian() {
    let (s, left) = pcm_samples(&[0xFF, 0xFF, 0x00, 0x80, 0x34, 0x12]);
    assert_eq!(s, vec![-1, -32768, 0x1234]);
    assert_eq!(left, None);
}

#[test]
fn pcm_carry_joins_split_samples() {
    let mut p = PcmCarry::new();
    assert_eq!(p.feed(&[0x01]), Vec::<i16>::new());
    assert_eq!(p.carry, Some(0x01));
    assert_eq!(p.feed(&[0x00, 0x02, 0x00, 0x07]), vec![1, 2]);
    assert_eq!(p.carry, Some(0x07));
    // Read in pieces or whole, the samples are the same.
    let (whole, left) = pcm_samples(&[0x01, 0x00, 0x02, 0x00, 0x07]);
    assert_eq!(whole, vec![1, 2]);
    assert_eq!(left, Some(0x07));
}

#[test]
fn typist_applies_only_the_latest_decode() {
    let mut t = Typist::new();
    let ops = t.step(&vec!["a".to_string(), "ab".to_string()]).unwrap();
    let mut field = String::new();
    apply_ops_to_string(&mut field, &ops);
    assert_eq!(field, "ab");
    assert_eq!(t.typed, "ab");
    assert!(t.step(&vec!["ab".to_string()]).is_none());
}

#[test]
fn decode_state_sends_only_new_nonempty_text() {
    let mut d = DecodeState::new();
    assert!(!d.has_new_audio(0));
    assert!(d.has_new_audio(5));
    assert!(!d.has_new_audio(5));
    assert_eq!(d.offer("  hello  "), Some("hello".to_string()));
    assert_eq!(d.offer("hello"), None);
    assert_eq!(d.offer(" \n "), None);
    assert_eq!(d.last_sent, "hello");
    assert_eq!(d.offer("hello world"), Some("hello world".to_string()));
}

#[test]
fn replay_field_settles_on_the_last_decode() {
    let mut r = Replay::new();
    r.step(" hello ");
    assert_eq!(r.field, "hello");
    r.step("   ");
    assert_eq!(r.field, "hello");
    r.step("Hello, world.");
    assert_eq!(r.field, "Hello, world.");
    assert_eq!(r.typed, "Hello, world.");
}

#[test]
fn words_lower_unicode_case_and_punctuation() {
    assert_eq!(words_lower("ÄBC, déjà-vu! -- 42"), vec!["äbc", "déjàvu", "42"]);
}

#[test]
fn word_diff_tags_and_tagged_words() {
    let a = words_lower("one two three");
    let b = words_lower("one three four");
    let d = word_diff(&a, &b);
    assert_eq!(
        d,
        vec![
            (' ', "one".to_string()),
            ('-', "two".to_string()),
            (' ', "three".to_string()),
            ('+', "four".to_string()),
        ]
    );
    assert_eq!(words_tagged(&d, '-'), vec!["two"]);
    assert_eq!(words_tagged(&d, '+'), vec!["four"]);
}

#[test]
fn parse_pid_accepts_what_str_parse_accepts() {
    assert_eq!(parse_pid(" 123\n"), Some(123));
    assert_eq!(parse_pid("-5"), Some(-5));
    assert_eq!(parse_pid("+7"), Some(7));
    assert_eq!(parse_pid("-2147483648"), Some(i32::MIN));
    assert_eq!(parse_pid("2147483647"), Some(i32::MAX));
    assert_eq!(parse_pid("2147483648"), None);
    assert_eq!(parse_pid("12a"), None);
    assert_eq!(parse_pid(""), None);
    assert_eq!(parse_pid("-"), None);
}

#[test]
fn key_for_cursor_ops() {
    assert_eq!(key_for(&Op::Left(3)), Some(("Left".to_string(), 3)));
    assert_eq!(key_for(&Op::Right(1)), Some(("Right".to_string(), 1)));
    assert_eq!(key_for(&Op::Back(2)), Some(("BackSpace".to_string(), 2)));
    assert_eq!(key_for(&Op::Type("x".into())), None);
}
