use apiary::bwrap::parse_child_pid;
use apiary::sandbox::SandboxArgs;

fn sa(f: impl FnOnce(&mut SandboxArgs)) -> SandboxArgs {
    let mut a = SandboxArgs::default();
    f(&mut a);
    a
}

// -- need_* helpers --

#[test]
fn need_wayland_direct() { assert!(sa(|a| a.wayland = true).need_wayland()); }
#[test]
fn need_wayland_via_gui() { assert!(sa(|a| a.gui = true).need_wayland()); }
#[test]
fn need_wayland_off() { assert!(!SandboxArgs::default().need_wayland()); }

#[test]
fn need_pulse_direct() { assert!(sa(|a| a.pulse = true).need_pulse()); }
#[test]
fn need_pulse_via_audio() { assert!(sa(|a| a.audio = true).need_pulse()); }
#[test]
fn need_pulse_via_gui() { assert!(sa(|a| a.gui = true).need_pulse()); }

#[test]
fn need_pipewire_direct() { assert!(sa(|a| a.pipewire = true).need_pipewire()); }
#[test]
fn need_pipewire_via_audio() { assert!(sa(|a| a.audio = true).need_pipewire()); }
#[test]
fn need_pipewire_via_gui() { assert!(sa(|a| a.gui = true).need_pipewire()); }

#[test]
fn need_dbus_talk() { assert!(sa(|a| a.dbus_talk.push("org.foo".into())).need_dbus()); }
#[test]
fn need_dbus_own() { assert!(sa(|a| a.dbus_own.push("org.bar".into())).need_dbus()); }
#[test]
fn need_dbus_empty() { assert!(!SandboxArgs::default().need_dbus()); }

// -- to_cli_args --

#[test]
fn cli_args_default_only_hostname() {
    assert_eq!(SandboxArgs::default().to_cli_args(), vec!["--hostname=bubble"]);
}

#[test]
fn cli_args_flags() {
    let out = sa(|a| { a.gui = true; a.network = true; }).to_cli_args();
    assert!(out.contains(&"--gui".into()));
    assert!(out.contains(&"--network".into()));
}

#[test]
fn cli_args_hostname_custom() {
    let out = sa(|a| a.hostname = "mybox".into()).to_cli_args();
    assert!(out.contains(&"--hostname=mybox".into()));
}

#[test]
fn cli_args_multi_repeatable() {
    let out = sa(|a| {
        a.dbus_talk.push("org.foo".into());
        a.dbus_talk.push("org.bar".into());
    }).to_cli_args();
    assert!(out.contains(&"--dbus-talk=org.foo".into()));
    assert!(out.contains(&"--dbus-talk=org.bar".into()));
}

#[test]
fn cli_args_persist_home() {
    let out = sa(|a| a.persist_home = Some("myapp".into())).to_cli_args();
    assert!(out.contains(&"--persist-home=myapp".into()));
}

#[test]
fn cli_args_set_env() {
    let out = sa(|a| a.set_env.push("FOO=bar".into())).to_cli_args();
    assert!(out.contains(&"--set-env=FOO=bar".into()));
}

#[test]
fn cli_args_ro_bind() {
    let out = sa(|a| a.ro_bind.push("/src:/dst".into())).to_cli_args();
    assert!(out.contains(&"--ro-bind=/src:/dst".into()));
}

#[test]
fn cli_args_pasta_flag() {
    let out = sa(|a| a.pasta = true).to_cli_args();
    assert!(out.contains(&"--pasta".into()));
}

#[test]
fn cli_args_pasta_tcp() {
    let out = sa(|a| {
        a.pasta = true;
        a.pasta_tcp.push("127.0.0.1/8384".into());
    }).to_cli_args();
    assert!(out.contains(&"--pasta-tcp=127.0.0.1/8384".into()));
}

#[test]
fn cli_args_pasta_udp() {
    let out = sa(|a| {
        a.pasta = true;
        a.pasta_udp.push("21027".into());
    }).to_cli_args();
    assert!(out.contains(&"--pasta-udp=21027".into()));
}

#[test]
fn need_network_files_via_network() {
    assert!(sa(|a| a.network = true).need_network_files());
}

#[test]
fn need_network_files_via_pasta() {
    assert!(sa(|a| a.pasta = true).need_network_files());
}

#[test]
fn need_network_files_off() {
    assert!(!SandboxArgs::default().need_network_files());
}

#[test]
fn parse_child_pid_basic() {
    assert_eq!(parse_child_pid(b"{\"child-pid\": 12345}"), Some(12345));
}

#[test]
fn parse_child_pid_no_space() {
    assert_eq!(parse_child_pid(b"{\"child-pid\":42}"), Some(42));
}

#[test]
fn parse_child_pid_with_other_fields() {
    let buf = b"{\"child-pid\": 99, \"uid-map\": \"...\"}";
    assert_eq!(parse_child_pid(buf), Some(99));
}

#[test]
fn parse_child_pid_partial() {
    assert_eq!(parse_child_pid(b"{\"child-pid\":"), None);
}

#[test]
fn parse_child_pid_missing() {
    assert_eq!(parse_child_pid(b"{\"foo\": 1}"), None);
}
