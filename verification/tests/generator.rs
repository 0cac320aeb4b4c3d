use apiary::generator::{patch_desktop, wrapper_script};

fn patch(content: &str, bins: &[&str]) -> String {
    let bins: Vec<String> = bins.iter().map(|s| s.to_string()).collect();
    patch_desktop(content, &bins, "/out/bin").0
}

#[test]
fn bare_name() {
    assert_eq!(
        patch("Exec=spotify %U\n", &["spotify"]),
        "Exec=/out/bin/spotify %U\n",
    );
}

#[test]
fn full_path() {
    assert_eq!(
        patch("Exec=/nix/store/abc-spotify/bin/spotify --flag\n", &["spotify"]),
        "Exec=/out/bin/spotify --flag\n",
    );
}

#[test]
fn tryexec() {
    assert_eq!(
        patch("TryExec=discord\n", &["discord"]),
        "TryExec=/out/bin/discord\n",
    );
}

#[test]
fn no_args() {
    assert_eq!(
        patch("Exec=spotify\n", &["spotify"]),
        "Exec=/out/bin/spotify\n",
    );
}

#[test]
fn unknown_exe_is_left_alone() {
    let input = "Exec=something-else %U\n";
    assert_eq!(patch(input, &["spotify"]), input);
}

#[test]
fn other_lines_are_unchanged() {
    let input = "[Desktop Entry]\nName=Spotify\nExec=spotify\nIcon=spotify\n";
    assert_eq!(
        patch(input, &["spotify"]),
        "[Desktop Entry]\nName=Spotify\nExec=/out/bin/spotify\nIcon=spotify\n",
    );
}

#[test]
fn multiple_sections() {
    let input = "Exec=spotify\n[Desktop Action]\nExec=spotify --uri\n";
    assert_eq!(
        patch(input, &["spotify"]),
        "Exec=/out/bin/spotify\n[Desktop Action]\nExec=/out/bin/spotify --uri\n",
    );
}

#[test]
fn no_trailing_newline_preserved() {
    assert_eq!(
        patch("Exec=spotify", &["spotify"]),
        "Exec=/out/bin/spotify",
    );
}

#[test]
fn wrapper_script_bare_paths() {
    assert_eq!(
        wrapper_script(
            "/out/bin/bubblewand",
            &["--gui".into(), "--network".into()],
            "/nix/store/abc/bin/spotify",
        ),
        "#!/bin/sh\nexec /out/bin/bubblewand --gui --network -- /nix/store/abc/bin/spotify \"$@\"\n",
    );
}

#[test]
fn wrapper_script_quotes_special_chars() {
    let out = wrapper_script(
        "/out/bin/bubblewand",
        &["--dbus-talk=org.freedesktop.portal.*".into()],
        "/nix/store/abc/bin/app",
    );
    assert!(out.starts_with("#!/bin/sh\n"));
    assert!(out.contains("--dbus-talk=org.freedesktop.portal"));
    assert!(out.ends_with("-- /nix/store/abc/bin/app \"$@\"\n"));
}
