use apiary::bwrap::{dbus_proxy_args, dbus_socket, parse_child_pid, pasta_args};
use apiary::generator::{exec_command, file_name_of, patch_desktop, ro_bind_file_flags, should_wrap, wrapper_script};
use apiary::invocation::{build_bwrap_args, identity_files, paths_to_probe, share_tmp_dir, Host, Plumbing};
use apiary::sandbox::SandboxArgs;
use apiary::scoper::systemd_run_args;
use apiary::text::{is_whitespace, path_join, split_once_at, trim_str};

fn strings(v: &[&str]) -> Vec<String> {
    v.iter().map(|s| s.to_string()).collect()
}

fn host() -> Host {
    Host {
        vars: vec![
            ("HOME".to_string(), "/home/u".to_string()),
            ("USER".to_string(), "u".to_string()),
        ],
        uid: 1000,
        gid: 100,
        group_name: None,
        runtime_dir: Some("/run/user/1000".to_string()),
        persist_dir: None,
        existing: strings(&["/etc/localtime"]),
        dirs: vec![],
        canonical: vec![],
        gpu_devices: vec![],
    }
}

fn plumbing() -> Plumbing {
    Plumbing { passwd_fd: Some(3), group_fd: Some(4), hostname_fd: Some(5), dbus_socket: None, pasta_fds: None }
}

fn args(f: impl FnOnce(&mut SandboxArgs)) -> SandboxArgs {
    let mut a = SandboxArgs::default();
    f(&mut a);
    a
}

const BASE: &[&str] = &[
    "--proc", "/proc", "--dev", "/dev", "--tmpfs", "/tmp",
    "--dir", "/home/u",
    "--tmpfs", "/etc", "--file", "3", "/etc/passwd", "--file", "4", "/etc/group",
    "--file", "5", "/etc/hostname", "--ro-bind", "/etc/localtime", "/etc/localtime",
    "--die-with-parent", "--unshare-all",
    "--hostname", "bubble", "--clearenv", "--setenv", "HOME", "/home/u",
];

#[test]
fn bwrap_args_default_sandbox() {
    let cmd = build_bwrap_args(&SandboxArgs::default(), &host(), &plumbing());
    assert_eq!(cmd.0, strings(BASE));
}

#[test]
fn bwrap_args_network_shares_net_and_resolv() {
    let mut h = host();
    h.vars.push(("TZ".to_string(), "UTC".to_string()));
    let cmd = build_bwrap_args(&args(|a| a.network = true), &h, &plumbing());
    let v = cmd.0;
    let i = v.iter().position(|s| s == "--unshare-all").unwrap();
    assert_eq!(v[i + 1], "--share-net");
    assert_eq!(
        &v[i + 2..i + 17],
        &strings(&[
            "--ro-bind", "/etc/hosts", "/etc/hosts",
            "--ro-bind", "/etc/nsswitch.conf", "/etc/nsswitch.conf",
            "--ro-bind", "/etc/resolv.conf", "/etc/resolv.conf",
            "--ro-bind", "/etc/ssl", "/etc/ssl",
            "--setenv", "TZ", "UTC",
        ])[..]
    );
}

#[test]
fn bwrap_args_without_network_mount_no_network_files() {
    let v = build_bwrap_args(&SandboxArgs::default(), &host(), &plumbing()).0;
    for p in ["/etc/hosts", "/etc/nsswitch.conf", "/etc/resolv.conf", "/etc/ssl"] {
        assert!(!v.contains(&p.to_string()));
    }
}

#[test]
fn bwrap_args_gui_is_wayland_pulse_pipewire() {
    let gui = build_bwrap_args(&args(|a| a.gui = true), &host(), &plumbing());
    let all = build_bwrap_args(
        &args(|a| {
            a.gui = true;
            a.wayland = true;
            a.pulse = true;
            a.pipewire = true;
        }),
        &host(),
        &plumbing(),
    );
    assert_eq!(gui.0, all.0);
    assert!(gui.0.contains(&"WAYLAND_DISPLAY".to_string()));
    assert!(gui.0.contains(&"/run/user/1000/pipewire-0".to_string()));
}

#[test]
fn bwrap_args_audio_is_pulse_pipewire() {
    let audio = build_bwrap_args(&args(|a| a.audio = true), &host(), &plumbing());
    let both = build_bwrap_args(
        &args(|a| {
            a.audio = true;
            a.pulse = true;
            a.pipewire = true;
        }),
        &host(),
        &plumbing(),
    );
    assert_eq!(audio.0, both.0);
    assert!(audio.0.contains(&"/run/user/1000/pulse".to_string()));
}

#[test]
fn bwrap_args_user_overrides_come_last() {
    let a = args(|a| {
        a.ro_bind.push("/a:/b".to_string());
        a.rw_bind.push("/c:/d".to_string());
        a.tmpfs.push("/scratch".to_string());
        a.set_env.push("K=V=W".to_string());
        a.set_env.push("NOEQUALS".to_string());
        a.new_session = true;
    });
    let v = build_bwrap_args(&a, &host(), &plumbing()).0;
    let tail: Vec<&str> = v[BASE.len()..].iter().map(|s| s.as_str()).collect();
    assert_eq!(
        tail,
        vec![
            "--ro-bind", "/a", "/b", "--bind", "/c", "/d", "--tmpfs", "/scratch",
            "--setenv", "K", "V=W", "--new-session",
        ]
    );
}

#[test]
fn bwrap_args_share_tmp_and_persist_home() {
    let mut h = host();
    h.persist_dir = Some("/home/u/.local/share/bubblewand/app/home".to_string());
    let a = args(|a| {
        a.share_tmp = Some("app".to_string());
        a.persist_home = Some("app".to_string());
    });
    let v = build_bwrap_args(&a, &h, &plumbing()).0;
    assert_eq!(
        &v[..10],
        &strings(&[
            "--proc",
            "/proc",
            "--dev",
            "/dev",
            "--bind",
            "/run/user/1000/bubblewand/app",
            "/tmp",
            "--bind",
            "/home/u/.local/share/bubblewand/app/home",
            "/home/u",
        ])[..]
    );
}

#[test]
fn bwrap_args_dbus_and_pasta_plumbing() {
    let mut pl = plumbing();
    pl.dbus_socket = Some("/run/user/1000/bubblewand-dbus.sock".to_string());
    pl.pasta_fds = Some((7, 8));
    let a = args(|a| {
        a.pasta = true;
        a.dbus_talk.push("org.a".to_string());
    });
    let v = build_bwrap_args(&a, &host(), &pl).0;
    assert!(!v.contains(&"--share-net".to_string()));
    let i = v.iter().position(|s| s == "--info-fd").unwrap();
    assert_eq!(&v[i..i + 4], &strings(&["--info-fd", "7", "--block-fd", "8"])[..]);
    let n = v.len();
    assert_eq!(
        &v[n - 6..],
        &strings(&[
            "--ro-bind",
            "/run/user/1000/bubblewand-dbus.sock",
            "/run/user/1000/bus",
            "--setenv",
            "DBUS_SESSION_BUS_ADDRESS",
            "unix:path=/run/user/1000/bus",
        ])[..]
    );
}

#[test]
fn identity_files_for_host() {
    let (passwd, group, hostname) = identity_files(&args(|a| a.hostname = "box".to_string()), &host());
    assert_eq!(passwd, "u:x:0:0::/home/u:/bin/sh\n");
    assert_eq!(group, "100:x:0:u\n");
    assert_eq!(hostname, "box\n");
}

#[test]
fn share_tmp_dir_joins_paths() {
    assert_eq!(share_tmp_dir(&host(), "app"), "/run/user/1000/bubblewand/app");
    let mut slash = host();
    slash.runtime_dir = Some("/run/user/1000/".to_string());
    assert_eq!(share_tmp_dir(&slash, "app"), "/run/user/1000/bubblewand/app");
    assert_eq!(share_tmp_dir(&host(), "/abs"), "/abs");
    let mut h = host();
    h.runtime_dir = None;
    assert_eq!(share_tmp_dir(&h, "app"), "/run/user/1000/bubblewand/app");
}

#[test]
fn probe_list_without_variables() {
    let p = paths_to_probe(&host());
    assert_eq!(p.len(), 6 + 64);
    assert_eq!(p[0], "/etc/localtime");
    assert_eq!(p[5], "/run/opengl-driver-32");
    assert_eq!(p[6], "/dev/video0");
    assert_eq!(p[69], "/dev/video63");
}

#[test]
fn probe_list_splits_path_variables() {
    let mut h = host();
    h.vars.push(("XDG_DATA_DIRS".to_string(), "/a:/b".to_string()));
    let p = paths_to_probe(&h);
    assert_eq!(p[6], "/a");
    assert_eq!(p[7], "/b");
    assert_eq!(p[8], "/dev/video0");
}

#[test]
fn dbus_proxy_command_line() {
    assert_eq!(dbus_socket("/run/user/1"), "/run/user/1/bubblewand-dbus.sock");
    assert_eq!(
        dbus_proxy_args("unix:path=/run/user/1/bus", "/run/user/1/bubblewand-dbus.sock", 9, &strings(&["org.a"]), &strings(&["org.b", "org.c"])),
        strings(&[
            "unix:path=/run/user/1/bus",
            "/run/user/1/bubblewand-dbus.sock",
            "--filter",
            "--fd=9",
            "--talk=org.a",
            "--own=org.b",
            "--own=org.c",
        ])
    );
}

#[test]
fn pasta_defaults_to_outbound_only() {
    assert_eq!(
        pasta_args(42, &vec![], &vec![], &None),
        strings(&[
            "--quiet", "--config-net", "--host-lo-to-ns-lo", "-T", "none", "-U", "none",
            "--userns", "/proc/42/ns/user", "--netns", "/proc/42/ns/net", "-t", "none", "-u", "none",
        ])
    );
}

#[test]
fn pasta_forwards_specs_verbatim() {
    let v = pasta_args(7, &strings(&["8384", "127.0.0.1/22"]), &vec![], &Some("aa:bb".to_string()));
    assert_eq!(
        &v[11..],
        &strings(&["--ns-mac-addr", "aa:bb", "-t", "8384", "-t", "127.0.0.1/22", "-u", "none"])[..]
    );
}

#[test]
fn child_pid_from_bytes() {
    assert_eq!(parse_child_pid(b"{\"child-pid\": 123}"), Some(123));
    assert_eq!(parse_child_pid(b"\xff{\"child-pid\": 5}"), None);
    assert_eq!(parse_child_pid(b"{\"child-pid\": 99999999999}"), None);
}

#[test]
fn wrapper_script_quotes_like_a_shell() {
    assert_eq!(
        wrapper_script("/b/bubblewand", &strings(&["--set-env=A=b c", "--tmpfs=it's"]), "/x/bin/app"),
        "#!/bin/sh\nexec /b/bubblewand '--set-env=A=b c' '--tmpfs=it'\\''s' -- /x/bin/app \"$@\"\n"
    );
    assert_eq!(
        wrapper_script("/b/bubblewand", &strings(&[""]), "/x/bin/app"),
        "#!/bin/sh\nexec /b/bubblewand '' -- /x/bin/app \"$@\"\n"
    );
}

#[test]
fn patch_desktop_reports_replacement() {
    let bins = strings(&["app"]);
    assert_eq!(
        patch_desktop("[Desktop Entry]\nExec=app %U\n", &bins, "/out/bin"),
        ("[Desktop Entry]\nExec=/out/bin/app %U\n".to_string(), true)
    );
    assert_eq!(
        patch_desktop("[Desktop Entry]\nExec=other\n", &bins, "/out/bin"),
        ("[Desktop Entry]\nExec=other\n".to_string(), false)
    );
}

#[test]
fn ro_bind_file_lines() {
    assert_eq!(
        ro_bind_file_flags("/nix/store/a\n\n  /nix/store/b  \n"),
        strings(&["--ro-bind=/nix/store/a:/nix/store/a", "--ro-bind=/nix/store/b:/nix/store/b"])
    );
}

#[test]
fn exec_command_and_wrapping_choice() {
    assert_eq!(
        exec_command(&strings(&["--gui"]), "/x/app", &strings(&["-v"])),
        strings(&["--gui", "--", "/x/app", "-v"])
    );
    assert!(should_wrap(&vec![], "anything"));
    assert!(should_wrap(&strings(&["a", "b"]), "b"));
    assert!(!should_wrap(&strings(&["a"]), "b"));
}

#[test]
fn systemd_run_command_line() {
    assert_eq!(
        systemd_run_args("session-3-apps.slice", "app-x-1.scope", &strings(&["foot", "-e", "sh"])),
        strings(&[
            "--user", "--scope", "--slice=session-3-apps.slice", "--unit=app-x-1.scope", "--", "foot", "-e", "sh",
        ])
    );
}

#[test]
fn text_helpers_follow_std() {
    assert_eq!(trim_str("\u{3000} x \t\n"), "x");
    assert_eq!(split_once_at("k=v=w", '='), Some(("k".to_string(), "v=w".to_string())));
    assert_eq!(split_once_at("kv", '='), None);
}

#[test]
fn patch_desktop_crlf_lines() {
    let bins = strings(&["app"]);
    assert_eq!(
        patch_desktop("Exec=app\r\nName=App\r\n", &bins, "/out/bin"),
        ("Exec=/out/bin/app\nName=App\n".to_string(), true)
    );
}

#[test]
fn whitespace_matches_std_for_every_char() {
    for c in (0u32..=0x10FFFF).filter_map(char::from_u32) {
        assert_eq!(is_whitespace(c), c.is_whitespace(), "{:?}", c);
    }
}

#[test]
fn path_join_matches_std() {
    let samples = ["", "/", "a", "a/", "/a", "/a/", "a//", ".", "..", "a/b", " "];
    for base in samples {
        for rel in samples {
            let expected = std::path::Path::new(base).join(rel).to_string_lossy().into_owned();
            assert_eq!(path_join(base, rel), expected, "{:?} {:?}", base, rel);
        }
    }
}

#[test]
fn gui_binds_the_wayland_socket() {
    let v = build_bwrap_args(&args(|a| a.gui = true), &host(), &plumbing()).0;
    let i = v.iter().position(|s| s == "/run/user/1000/wayland-1").unwrap();
    assert_eq!(v[i - 1], "--ro-bind");
    assert_eq!(v[i + 1], "/run/user/1000/wayland-1");
}

#[test]
fn file_name_matches_std() {
    let samples = [
        "", "/", "//", ".", "..", "./", "/.", "/..", "a", "a/", "a//", "a/.", "a/./", "a/..", "./a",
        "/a/b", "a/b/", ".a", "a/.b", "..a", "a/...", "/nix/store/x-app/bin/app", "a/./.", "./.",
    ];
    for p in samples {
        let expected = std::path::Path::new(p).file_name().map(|n| n.to_string_lossy().into_owned());
        assert_eq!(file_name_of(p), expected, "{:?}", p);
    }
}
