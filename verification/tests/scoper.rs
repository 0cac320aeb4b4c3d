use apiary::scoper::{build_target_slice, parent_slice_from_cgroup, scope_unit_name, unit_escape};

#[test]
fn build_target_slice_no_parent() {
    assert_eq!(build_target_slice("", "session-1"), "session-1.slice");
}

#[test]
fn build_target_slice_no_parent_with_suffix() {
    assert_eq!(build_target_slice("", "session-1.slice"), "session-1.slice");
}

#[test]
fn build_target_slice_with_parent() {
    assert_eq!(build_target_slice("session-1.slice", "apps"), "session-1-apps.slice");
}

#[test]
fn build_target_slice_with_parent_with_suffix() {
    assert_eq!(build_target_slice("session-1.slice", "apps.slice"), "session-1-apps.slice");
}

#[test]
fn parent_slice_from_cgroup_inside_user_manager() {
    let path = "/user.slice/user-1000.slice/user@1000.service/session.slice/session-1.slice/sway.scope";
    assert_eq!(parent_slice_from_cgroup(path), "session-1.slice");
}

#[test]
fn parent_slice_from_cgroup_inside_apps_slice() {
    let path = "/user.slice/user-1000.slice/user@1000.service/session.slice/session-1.slice/session-1-apps.slice/app-discord-123.scope";
    assert_eq!(parent_slice_from_cgroup(path), "session-1-apps.slice");
}

#[test]
fn parent_slice_from_cgroup_outside_user_manager() {
    // TTY login — no user@NNN.service in path
    let path = "/user.slice/user-1000.slice/session-1.scope";
    assert_eq!(parent_slice_from_cgroup(path), "");
}

#[test]
fn unit_escape_clean() {
    assert_eq!(unit_escape("discord"), "discord");
}

#[test]
fn unit_escape_special_chars() {
    assert_eq!(unit_escape("my/app name"), "my-app-name");
}

#[test]
fn slice_base_prefixes_named_scope() {
    let slice_base = "session-1-apps";
    let name = "discord";
    assert_eq!(scope_unit_name(slice_base, Some(name), "discord", 1), "session-1-apps-discord.scope");
}

#[test]
fn slice_base_prefixes_sway_scope() {
    let slice_base = "session-1";
    let name = "sway";
    assert_eq!(scope_unit_name(slice_base, Some(name), "sway", 1), "session-1-sway.scope");
}
