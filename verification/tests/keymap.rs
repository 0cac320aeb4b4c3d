use apiary::keymap::{keysym_for_char, KeyCodes};

#[test]
fn keysym_names() {
    assert_eq!(keysym_for_char('a'), "U0061");
    assert_eq!(keysym_for_char(' '), "U0020");
    assert_eq!(keysym_for_char('€'), "U20AC");
    assert_eq!(keysym_for_char('😀'), "U1F600");
}

#[test]
fn default_keycodes() {
    let k = KeyCodes::with_defaults();
    assert_eq!(k.code("BackSpace"), Some(1));
    assert_eq!(k.code("End"), Some(6));
    assert_eq!(k.code("U0020"), Some(7));
    assert_eq!(k.code("U007E"), Some(101));
    assert_eq!(k.code("U00E9"), None);
}

#[test]
fn assign_is_stable() {
    let mut k = KeyCodes::with_defaults();
    assert_eq!(k.assign("U00E9"), (102, true));
    assert_eq!(k.assign("U00E9"), (102, false));
    assert_eq!(k.assign("Left"), (2, false));
    assert_eq!(k.code("U00E9"), Some(102));
    assert_eq!(k.code("Left"), Some(2));
}

#[test]
fn keymap_text_of_one_key() {
    let mut k = KeyCodes::new();
    k.assign("a");
    assert_eq!(
        k.build_keymap(),
        "xkb_keymap {\n  xkb_keycodes \"dictate\" {\n    minimum = 8;\n    maximum = 9;\n    <K9> = 9;\n  };\n  xkb_types \"dictate\" { include \"complete\" };\n  xkb_compatibility \"dictate\" { include \"complete\" };\n  xkb_symbols \"dictate\" {\n    key <K9> { [ a ] };\n  };\n};\n"
    );
}

#[test]
fn keymap_text_of_no_keys() {
    let k = KeyCodes::new();
    assert_eq!(
        k.build_keymap(),
        "xkb_keymap {\n  xkb_keycodes \"dictate\" {\n    minimum = 8;\n    maximum = 8;\n  };\n  xkb_types \"dictate\" { include \"complete\" };\n  xkb_compatibility \"dictate\" { include \"complete\" };\n  xkb_symbols \"dictate\" {\n  };\n};\n"
    );
}

#[test]
fn default_keymap_mentions_every_default_key() {
    let k = KeyCodes::with_defaults();
    let text = k.build_keymap();
    assert!(text.contains("maximum = 109;"));
    assert!(text.contains("    key <K9> { [ BackSpace ] };\n"));
    assert!(text.contains("    key <K109> { [ U007E ] };\n"));
}
