//! The full bwrap argument vector of a sandbox, built from the flags, what
//! is known of the host, and the descriptors and sockets prepared for it.
use vstd::prelude::*;
use crate::bwrap::{BwrapArgs, opt1, opt2};
use crate::lcs::views;
use crate::sandbox::SandboxArgs;
use crate::text::{
    assoc, assoc_get, listed, is_listed, string_from, concat2, concat3, decimal, decimal_string,
    signed_decimal, i32_string, spec_path_join, path_join, split_once, split_once_at, split_on,
    split_chars, join, join_strings, has_prefix, starts_with, chars_of, string_of, seqs_of,
};

verus! {

/// What the sandbox runtime knows of the host when it builds the bwrap
/// invocation.
pub struct Host {
    /// The environment variables whose names and values are valid Unicode.
    pub vars: Vec<(String, String)>,
    pub uid: u32,
    pub gid: u32,
    /// The name of the group `gid`, when the group database has one.
    pub group_name: Option<String>,
    /// The XDG runtime directory, when one is configured.
    pub runtime_dir: Option<String>,
    /// The persistent home created under the XDG data directory, when
    /// `--persist-home` asked for one and it could be created.
    pub persist_dir: Option<String>,
    /// Paths that exist.
    pub existing: Vec<String>,
    /// Paths that are directories.
    pub dirs: Vec<String>,
    /// Paths paired with their canonical form, for those that resolve.
    pub canonical: Vec<(String, String)>,
    /// The canonical sysfs paths of the PCI devices that drive a display.
    pub gpu_devices: Vec<String>,
}

/// The descriptors and sockets prepared before bwrap runs.
pub struct Plumbing {
    /// Read end of a pipe holding the `/etc/passwd` contents.
    pub passwd_fd: Option<i32>,
    /// Read end of a pipe holding the `/etc/group` contents.
    pub group_fd: Option<i32>,
    /// Read end of a pipe holding the `/etc/hostname` contents.
    pub hostname_fd: Option<i32>,
    /// The socket of a running DBus proxy.
    pub dbus_socket: Option<String>,
    /// The info and block descriptors shared with the pasta orchestrator.
    pub pasta_fds: Option<(i32, i32)>,
}

impl Host {
    /// The value of environment variable `k`.
    pub open spec fn var(&self, k: Seq<char>) -> Option<Seq<char>> {
        assoc(self.vars@, k)
    }

    /// `$HOME`, or `/home/user`.
    pub open spec fn home_dir(&self) -> Seq<char> {
        match self.var("HOME"@) {
            Some(h) => h,
            None => "/home/user"@,
        }
    }

    /// `$USER`, or the numeric uid.
    pub open spec fn user_name(&self) -> Seq<char> {
        match self.var("USER"@) {
            Some(u) => u,
            None => decimal(self.uid as nat),
        }
    }

    /// The group's name, or the numeric gid.
    pub open spec fn group(&self) -> Seq<char> {
        match self.group_name {
            Some(g) => g@,
            None => decimal(self.gid as nat),
        }
    }

    /// The XDG runtime directory, or `/run/user/<uid>`.
    pub open spec fn runtime(&self) -> Seq<char> {
        match self.runtime_dir {
            Some(r) => r@,
            None => "/run/user/"@ + decimal(self.uid as nat),
        }
    }

    pub open spec fn has_path(&self, p: Seq<char>) -> bool {
        listed(self.existing@, p)
    }

    pub open spec fn is_dir(&self, p: Seq<char>) -> bool {
        listed(self.dirs@, p)
    }

    pub open spec fn resolved(&self, p: Seq<char>) -> Option<Seq<char>> {
        assoc(self.canonical@, p)
    }

    pub fn env(&self, k: &str) -> (r: Option<String>)
        ensures
            match r {
                Some(v) => self.var(k@) == Some(v@),
                None => self.var(k@) is None,
            },
    {
        assoc_get(&self.vars, k)
    }

    pub fn home(&self) -> (s: String)
        ensures
            s@ == self.home_dir(),
    {
        match self.env("HOME") {
            Some(h) => h,
            None => string_from("/home/user"),
        }
    }

    pub fn user(&self) -> (s: String)
        ensures
            s@ == self.user_name(),
    {
        match self.env("USER") {
            Some(u) => u,
            None => decimal_string(self.uid as u64),
        }
    }

    pub fn group_or_gid(&self) -> (s: String)
        ensures
            s@ == self.group(),
    {
        match &self.group_name {
            Some(g) => g.clone(),
            None => decimal_string(self.gid as u64),
        }
    }

    pub fn runtime_path(&self) -> (s: String)
        ensures
            s@ == self.runtime(),
    {
        match &self.runtime_dir {
            Some(r) => r.clone(),
            None => {
                let u = decimal_string(self.uid as u64);
                concat2("/run/user/", u.as_str())
            },
        }
    }

    pub fn path_exists(&self, p: &str) -> (b: bool)
        ensures
            b == self.has_path(p@),
    {
        is_listed(&self.existing, p)
    }

    pub fn path_is_dir(&self, p: &str) -> (b: bool)
        ensures
            b == self.is_dir(p@),
    {
        is_listed(&self.dirs, p)
    }

    pub fn canonical_of(&self, p: &str) -> (r: Option<String>)
        ensures
            match r {
                Some(v) => self.resolved(p@) == Some(v@),
                None => self.resolved(p@) is None,
            },
    {
        assoc_get(&self.canonical, p)
    }
}

// ---------------------------------------------------------------------------
// Identity files and directories
// ---------------------------------------------------------------------------

/// The `/etc/passwd` line: the sandbox runs as uid 0, which maps to the
/// real user's name and home.
pub open spec fn passwd_line(h: Host) -> Seq<char> {
    h.user_name() + ":x:0:0::"@ + h.home_dir() + ":/bin/sh\n"@
}

/// The `/etc/group` line: gid 0, named as the user's group, with the user
/// as its member.
pub open spec fn group_line(h: Host) -> Seq<char> {
    h.group() + ":x:0:"@ + h.user_name() + "\n"@
}

/// The `/etc/hostname` contents.
pub open spec fn hostname_file(a: SandboxArgs) -> Seq<char> {
    a.hostname@ + "\n"@
}

/// The contents of the sandbox's `/etc/passwd`, `/etc/group` and
/// `/etc/hostname`.
pub fn identity_files(args: &SandboxArgs, host: &Host) -> (r: (String, String, String))
    ensures
        r.0@ == passwd_line(*host),
        r.1@ == group_line(*host),
        r.2@ == hostname_file(*args),
        host.group_name matches Some(g) ==> r.1@.take(g@.len() + 5int) == g@ + ":x:0:"@,
{
    proof {
        lemma_group_line_names(*host);
    }
    let user = host.user();
    let home = host.home();
    let group = host.group_or_gid();
    let mut passwd = concat3(user.as_str(), ":x:0:0::", home.as_str());
    crate::text::push_str(&mut passwd, ":/bin/sh\n");
    let mut grp = concat3(group.as_str(), ":x:0:", user.as_str());
    crate::text::push_str(&mut grp, "\n");
    let hostname = concat2(args.hostname.as_str(), "\n");
    (passwd, grp, hostname)
}

/// The shared `/tmp` for `--share-tmp=NAME`: `$XDG_RUNTIME_DIR/bubblewand/NAME`.
pub open spec fn share_tmp_path(runtime: Seq<char>, name: Seq<char>) -> Seq<char> {
    spec_path_join(spec_path_join(runtime, "bubblewand"@), name)
}

/// The shared `/tmp` directory for `name`.
pub fn share_tmp_dir(host: &Host, name: &str) -> (s: String)
    ensures
        s@ == share_tmp_path(host.runtime(), name@),
{
    let rt = host.runtime_path();
    let base = path_join(rt.as_str(), "bubblewand");
    path_join(base.as_str(), name)
}

/// The data directory, relative to the bubblewand XDG data directory,
/// that holds the persistent home `name`.
pub fn persist_home_rel(name: &str) -> (s: String)
    ensures
        s@ == name@ + "/home"@,
{
    concat2(name, "/home")
}

/// The persistent home: the one created under the XDG data directory, or
/// `~/.local/share/bubblewand/NAME/home`.
pub open spec fn persist_path(h: Host, name: Seq<char>) -> Seq<char> {
    match h.persist_dir {
        Some(p) => p@,
        None => spec_path_join(h.home_dir(), ".local/share/bubblewand/"@ + name + "/home"@),
    }
}

// ---------------------------------------------------------------------------
// The invocation, section by section
// ---------------------------------------------------------------------------

/// `--file FD DST` when the descriptor is there.
pub open spec fn fd_file(fd: Option<i32>, dst: Seq<char>) -> Seq<Seq<char>> {
    match fd {
        Some(f) => opt2("--file"@, signed_decimal(f as int), dst),
        None => seq![],
    }
}

/// `--ro-bind P P` when `p` exists.
pub open spec fn ro_if_exists(h: Host, p: Seq<char>) -> Seq<Seq<char>> {
    if h.has_path(p) {
        opt2("--ro-bind"@, p, p)
    } else {
        seq![]
    }
}

/// `--dev-bind P P` when `p` exists.
pub open spec fn dev_if_exists(h: Host, p: Seq<char>) -> Seq<Seq<char>> {
    if h.has_path(p) {
        opt2("--dev-bind"@, p, p)
    } else {
        seq![]
    }
}

/// `--ro-bind-try R R` for the canonical form `R` of `p`, when it resolves.
pub open spec fn real_bind(h: Host, p: Seq<char>) -> Seq<Seq<char>> {
    match h.resolved(p) {
        Some(r) => opt2("--ro-bind-try"@, r, r),
        None => seq![],
    }
}

/// `--setenv K V` when the host has `K`.
pub open spec fn var_env(h: Host, k: Seq<char>) -> Seq<Seq<char>> {
    match h.var(k) {
        Some(v) => opt2("--setenv"@, k, v),
        None => seq![],
    }
}

/// A certificate variable: its target bound in, and the variable set.
pub open spec fn cert_var(h: Host, k: Seq<char>) -> Seq<Seq<char>> {
    match h.var(k) {
        Some(v) => real_bind(h, v) + opt2("--setenv"@, k, v),
        None => seq![],
    }
}

/// Base filesystem: `/proc`, `/dev`, and an isolated or shared `/tmp`.
pub open spec fn seg_base(a: SandboxArgs, h: Host) -> Seq<Seq<char>> {
    opt1("--proc"@, "/proc"@) + opt1("--dev"@, "/dev"@) + match a.share_tmp {
        Some(n) => opt2("--bind"@, share_tmp_path(h.runtime(), n@), "/tmp"@),
        None => opt1("--tmpfs"@, "/tmp"@),
    }
}

/// Home: persistent or ephemeral.
pub open spec fn seg_home(a: SandboxArgs, h: Host) -> Seq<Seq<char>> {
    match a.persist_home {
        Some(n) => opt2("--bind"@, persist_path(h, n@), h.home_dir()),
        None => opt1("--dir"@, h.home_dir()),
    }
}

/// `/etc` with the identity files, the hostname and the local time (when
/// the host has it).
pub open spec fn seg_etc(h: Host, pl: Plumbing) -> Seq<Seq<char>> {
    opt1("--tmpfs"@, "/etc"@) + fd_file(pl.passwd_fd, "/etc/passwd"@) + fd_file(
        pl.group_fd,
        "/etc/group"@,
    ) + fd_file(pl.hostname_fd, "/etc/hostname"@) + ro_if_exists(h, "/etc/localtime"@)
}

/// Isolation: every namespace unshared, the host network shared back only
/// with `--network`.
pub open spec fn seg_isolation(a: SandboxArgs) -> Seq<Seq<char>> {
    seq!["--die-with-parent"@, "--unshare-all"@] + if a.network {
        seq!["--share-net"@]
    } else {
        seq![]
    }
}

/// The host's name resolution files.
pub open spec fn net_conf() -> Seq<Seq<char>> {
    opt2("--ro-bind"@, "/etc/hosts"@, "/etc/hosts"@) + opt2(
        "--ro-bind"@,
        "/etc/nsswitch.conf"@,
        "/etc/nsswitch.conf"@,
    ) + opt2("--ro-bind"@, "/etc/resolv.conf"@, "/etc/resolv.conf"@)
}

/// The host's certificates: `/etc/ssl` read-only, the NixOS indirection,
/// the bundles' targets and the certificate variables.
pub open spec fn net_certs(h: Host) -> Seq<Seq<char>> {
    opt2("--ro-bind"@, "/etc/ssl"@, "/etc/ssl"@) + (if h.has_path("/etc/static/ssl"@) {
        opt2("--ro-bind-try"@, "/etc/static/ssl"@, "/etc/static/ssl"@)
    } else {
        seq![]
    }) + real_bind(h, "/etc/ssl/certs/ca-certificates.crt"@) + real_bind(
        h,
        "/etc/ssl/certs/ca-bundle.crt"@,
    ) + cert_var(h, "NIX_SSL_CERT_FILE"@) + cert_var(h, "SSL_CERT_FILE"@) + cert_var(
        h,
        "SSL_CERT_DIR"@,
    )
}

/// Network configuration files, certificates and the time zone, with
/// `--network` or `--pasta`.
pub open spec fn seg_network_files(a: SandboxArgs, h: Host) -> Seq<Seq<char>> {
    if a.wants_network_files() {
        net_conf() + net_certs(h) + var_env(h, "TZ"@)
    } else {
        seq![]
    }
}

/// The descriptors bwrap shares with the pasta orchestrator.
pub open spec fn seg_pasta(pl: Plumbing) -> Seq<Seq<char>> {
    match pl.pasta_fds {
        Some((i, b)) => seq![
            "--info-fd"@,
            signed_decimal(i as int),
            "--block-fd"@,
            signed_decimal(b as int),
        ],
        None => seq![],
    }
}

/// Hostname and the baseline environment.
pub open spec fn seg_env(a: SandboxArgs, h: Host) -> Seq<Seq<char>> {
    opt1("--hostname"@, a.hostname@) + (if !a.keep_env {
        seq!["--clearenv"@]
    } else {
        seq![]
    }) + opt2("--setenv"@, "HOME"@, h.home_dir()) + var_env(h, "TERM"@) + var_env(h, "LANG"@)
        + var_env(h, "TZ"@)
}

/// The runtime directory, when a feature needs it.
pub open spec fn seg_runtime(a: SandboxArgs, h: Host) -> Seq<Seq<char>> {
    if a.wants_wayland() || a.wants_pulse() || a.wants_pipewire() || a.wants_dbus() {
        opt2("--setenv"@, "XDG_RUNTIME_DIR"@, h.runtime()) + opt1("--dir"@, h.runtime())
    } else {
        seq![]
    }
}

/// `--ro-bind P P` for each path.
pub open spec fn ro_each(ps: Seq<String>) -> Seq<Seq<char>>
    decreases ps.len(),
{
    if ps.len() == 0 {
        seq![]
    } else {
        ro_each(ps.drop_last()) + opt2("--ro-bind"@, ps.last()@, ps.last()@)
    }
}

/// GPU devices and drivers.
pub open spec fn seg_gpu(a: SandboxArgs, h: Host) -> Seq<Seq<char>> {
    if a.gpu {
        opt2("--dev-bind"@, "/dev/dri"@, "/dev/dri"@) + opt2("--ro-bind"@, "/sys/dev/char"@, "/sys/dev/char"@)
            + ro_if_exists(
            h,
            "/run/opengl-driver"@,
        ) + ro_if_exists(h, "/run/opengl-driver-32"@) + ro_each(h.gpu_devices@)
    } else {
        seq![]
    }
}

/// The Wayland display: `$WAYLAND_DISPLAY`, or `wayland-1`.
pub open spec fn wayland_display(h: Host) -> Seq<char> {
    match h.var("WAYLAND_DISPLAY"@) {
        Some(d) => d,
        None => "wayland-1"@,
    }
}

/// The Wayland socket under the runtime directory.
pub open spec fn wayland_socket(h: Host) -> Seq<char> {
    h.runtime() + "/"@ + wayland_display(h)
}

/// The Wayland socket and session variables.
pub open spec fn seg_wayland(a: SandboxArgs, h: Host) -> Seq<Seq<char>> {
    if a.wants_wayland() {
        opt2("--ro-bind"@, wayland_socket(h), wayland_socket(h)) + opt2("--setenv"@, "WAYLAND_DISPLAY"@, wayland_display(h))
            + var_env(h, "XDG_SESSION_TYPE"@)
    } else {
        seq![]
    }
}

/// PulseAudio sockets and server.
pub open spec fn seg_pulse(a: SandboxArgs, h: Host) -> Seq<Seq<char>> {
    if a.wants_pulse() {
        opt2("--bind-try"@, "/run/pulse"@, "/run/pulse"@) + opt2(
            "--bind-try"@,
            h.runtime() + "/pulse"@,
            h.runtime() + "/pulse"@,
        ) + var_env(h, "PULSE_SERVER"@)
    } else {
        seq![]
    }
}

/// PipeWire sockets.
pub open spec fn seg_pipewire(a: SandboxArgs, h: Host) -> Seq<Seq<char>> {
    if a.wants_pipewire() {
        opt2("--bind-try"@, "/run/pipewire"@, "/run/pipewire"@) + opt2(
            "--bind-try"@,
            h.runtime() + "/pipewire-0"@,
            h.runtime() + "/pipewire-0"@,
        )
    } else {
        seq![]
    }
}

/// Resolving the data directories: the binds for those outside the store,
/// and the canonical directories in order. Empty pieces, and pieces that
/// do not resolve to a directory, are dropped.
pub open spec fn data_dirs_scan(h: Host, ds: Seq<Seq<char>>) -> (Seq<Seq<char>>, Seq<Seq<char>>)
    decreases ds.len(),
{
    if ds.len() == 0 {
        (seq![], seq![])
    } else {
        let (args, res) = data_dirs_scan(h, ds.drop_last());
        let d = ds.last();
        if d.len() > 0 && h.resolved(d) is Some && h.is_dir(h.resolved(d)->0) {
            let r = h.resolved(d)->0;
            (args + (if !has_prefix(r, "/nix/"@) {
                opt2("--ro-bind-try"@, r, r)
            } else {
                seq![]
            }), res.push(r))
        } else {
            (args, res)
        }
    }
}

/// `XDG_DATA_DIRS` with symlinks resolved; directories outside the store
/// bound in.
pub open spec fn seg_data_dirs(h: Host) -> Seq<Seq<char>> {
    match h.var("XDG_DATA_DIRS"@) {
        Some(v) => {
            let (args, res) = data_dirs_scan(h, split_on(v, ':'));
            args + opt2("--setenv"@, "XDG_DATA_DIRS"@, join(res, ":"@))
        },
        None => seq![],
    }
}

/// The cursor directories that exist, bound in.
pub open spec fn cursor_dirs(h: Host, ds: Seq<Seq<char>>) -> Seq<Seq<char>>
    decreases ds.len(),
{
    if ds.len() == 0 {
        seq![]
    } else {
        cursor_dirs(h, ds.drop_last()) + if ds.last().len() > 0 && h.is_dir(ds.last()) {
            opt2("--ro-bind-try"@, ds.last(), ds.last())
        } else {
            seq![]
        }
    }
}

/// `XCURSOR_PATH` and its directories.
pub open spec fn seg_cursor_path(h: Host) -> Seq<Seq<char>> {
    match h.var("XCURSOR_PATH"@) {
        Some(v) => opt2("--setenv"@, "XCURSOR_PATH"@, v) + cursor_dirs(h, split_on(v, ':')),
        None => seq![],
    }
}

/// The dconf directory of the home.
pub open spec fn dconf_dir(h: Host) -> Seq<char> {
    h.home_dir() + "/.config/dconf"@
}

/// GUI extras: fonts, dconf, data directories, cursors.
pub open spec fn seg_gui(a: SandboxArgs, h: Host) -> Seq<Seq<char>> {
    if a.gui {
        opt2("--ro-bind-try"@, "/etc/fonts"@, "/etc/fonts"@) + opt1("--tmpfs"@, dconf_dir(h)) + opt2(
            "--ro-bind-try"@,
            dconf_dir(h),
            dconf_dir(h),
        ) + seg_data_dirs(h) + var_env(h, "XCURSOR_THEME"@) + var_env(h, "XCURSOR_SIZE"@)
            + seg_cursor_path(h)
    } else {
        seq![]
    }
}

/// `/dev/videoN`.
pub open spec fn video_device(n: nat) -> Seq<char> {
    "/dev/video"@ + decimal(n)
}

/// The video devices `/dev/video0` .. `/dev/video{k-1}` that exist.
pub open spec fn cameras_upto(h: Host, k: nat) -> Seq<Seq<char>>
    decreases k,
{
    if k == 0 {
        seq![]
    } else {
        cameras_upto(h, (k - 1) as nat) + dev_if_exists(h, video_device((k - 1) as nat))
    }
}

/// Cameras: every `/dev/video0` .. `/dev/video63` that exists.
pub open spec fn seg_camera(a: SandboxArgs, h: Host) -> Seq<Seq<char>> {
    if a.camera {
        cameras_upto(h, 64)
    } else {
        seq![]
    }
}

/// The DBus proxy socket as the session bus.
pub open spec fn seg_dbus(h: Host, pl: Plumbing) -> Seq<Seq<char>> {
    match pl.dbus_socket {
        Some(s) => opt2("--ro-bind"@, s@, h.runtime() + "/bus"@) + opt2(
            "--setenv"@,
            "DBUS_SESSION_BUS_ADDRESS"@,
            "unix:path="@ + h.runtime() + "/bus"@,
        ),
        None => seq![],
    }
}

/// `OPT HOST DEST` for each `HOST:DEST` spec; specs without `:` are
/// skipped.
pub open spec fn bind_specs(opt: Seq<char>, specs: Seq<String>) -> Seq<Seq<char>>
    decreases specs.len(),
{
    if specs.len() == 0 {
        seq![]
    } else {
        bind_specs(opt, specs.drop_last()) + match split_once(specs.last()@, ':') {
            Some((s, d)) => opt2(opt, s, d),
            None => seq![],
        }
    }
}

/// `--tmpfs P` for each path.
pub open spec fn tmpfs_each(ps: Seq<String>) -> Seq<Seq<char>>
    decreases ps.len(),
{
    if ps.len() == 0 {
        seq![]
    } else {
        tmpfs_each(ps.drop_last()) + opt1("--tmpfs"@, ps.last()@)
    }
}

/// `--setenv K V` for each `K=V`; entries without `=` are skipped.
pub open spec fn set_envs(kvs: Seq<String>) -> Seq<Seq<char>>
    decreases kvs.len(),
{
    if kvs.len() == 0 {
        seq![]
    } else {
        set_envs(kvs.drop_last()) + match split_once(kvs.last()@, '=') {
            Some((k, v)) => opt2("--setenv"@, k, v),
            None => seq![],
        }
    }
}

/// `--setenv K V` for each forwarded `K` the host has.
pub open spec fn fwd_envs(h: Host, keys: Seq<String>) -> Seq<Seq<char>>
    decreases keys.len(),
{
    if keys.len() == 0 {
        seq![]
    } else {
        fwd_envs(h, keys.drop_last()) + var_env(h, keys.last()@)
    }
}

/// User-supplied mounts and environment, in order.
pub open spec fn seg_user(a: SandboxArgs, h: Host) -> Seq<Seq<char>> {
    bind_specs("--ro-bind"@, a.ro_bind@) + bind_specs("--bind"@, a.rw_bind@) + tmpfs_each(a.tmpfs@)
        + set_envs(a.set_env@) + fwd_envs(h, a.fwd_env@)
}

/// A new session, when asked for.
pub open spec fn seg_session(a: SandboxArgs) -> Seq<Seq<char>> {
    if a.new_session {
        seq!["--new-session"@]
    } else {
        seq![]
    }
}

/// The whole bwrap invocation, before the command.
pub open spec fn bwrap_argv(a: SandboxArgs, h: Host, pl: Plumbing) -> Seq<Seq<char>> {
    seg_base(a, h) + seg_home(a, h) + seg_etc(h, pl) + seg_isolation(a) + seg_network_files(a, h)
        + seg_pasta(pl) + seg_env(a, h) + seg_runtime(a, h) + seg_gpu(a, h) + seg_wayland(a, h)
        + seg_pulse(a, h) + seg_pipewire(a, h) + seg_gui(a, h) + seg_camera(a, h) + seg_dbus(h, pl)
        + seg_user(a, h) + seg_session(a)
}

/// The built-in part of the invocation: everything before the user's
/// overrides.
pub open spec fn builtin_argv(a: SandboxArgs, h: Host, pl: Plumbing) -> Seq<Seq<char>> {
    seg_base(a, h) + seg_home(a, h) + seg_etc(h, pl) + seg_isolation(a) + seg_network_files(a, h)
        + seg_pasta(pl) + seg_env(a, h) + seg_runtime(a, h) + seg_gpu(a, h) + seg_wayland(a, h)
        + seg_pulse(a, h) + seg_pipewire(a, h) + seg_gui(a, h) + seg_camera(a, h) + seg_dbus(h, pl)
}

/// The flags other than the feature switches `--wayland`, `--pulse` and
/// `--pipewire` are the same.
pub open spec fn same_but_media(a: SandboxArgs, b: SandboxArgs) -> bool {
    &&& a.gui == b.gui && a.audio == b.audio && a.network == b.network && a.pasta == b.pasta
    &&& a.pasta_tcp@ == b.pasta_tcp@ && a.pasta_udp@ == b.pasta_udp@ && a.pasta_mac == b.pasta_mac
    &&& a.gpu == b.gpu && a.camera == b.camera
    &&& a.dbus_talk@ == b.dbus_talk@ && a.dbus_own@ == b.dbus_own@
    &&& a.persist_home == b.persist_home && a.share_tmp == b.share_tmp
    &&& a.set_env@ == b.set_env@ && a.fwd_env@ == b.fwd_env@
    &&& a.ro_bind@ == b.ro_bind@ && a.rw_bind@ == b.rw_bind@ && a.tmpfs@ == b.tmpfs@
    &&& a.hostname@ == b.hostname@ && a.new_session == b.new_session && a.keep_env == b.keep_env
}

/// The flags other than the user's overrides (`--ro-bind`, `--rw-bind`,
/// `--tmpfs`, `--set-env`, `--fwd-env`) are the same.
pub open spec fn same_but_overrides(a: SandboxArgs, b: SandboxArgs) -> bool {
    &&& a.gui == b.gui && a.audio == b.audio && a.network == b.network && a.pasta == b.pasta
    &&& a.wayland == b.wayland && a.pulse == b.pulse && a.pipewire == b.pipewire
    &&& a.pasta_tcp@ == b.pasta_tcp@ && a.pasta_udp@ == b.pasta_udp@ && a.pasta_mac == b.pasta_mac
    &&& a.gpu == b.gpu && a.camera == b.camera
    &&& a.dbus_talk@ == b.dbus_talk@ && a.dbus_own@ == b.dbus_own@
    &&& a.persist_home == b.persist_home && a.share_tmp == b.share_tmp
    &&& a.hostname@ == b.hostname@ && a.new_session == b.new_session && a.keep_env == b.keep_env
}

/// `--gui` implies `--wayland`, `--pulse` and `--pipewire`: with `--gui`,
/// adding or leaving out any of them builds the same invocation.
pub proof fn lemma_gui_implies_media(a: SandboxArgs, b: SandboxArgs, h: Host, pl: Plumbing)
    requires
        a.gui,
        same_but_media(a, b),
    ensures
        bwrap_argv(a, h, pl) == bwrap_argv(b, h, pl),
{
    assert(seg_user(a, h) == seg_user(b, h));
}

/// `--audio` implies `--pulse` and `--pipewire`: with `--audio`, adding or
/// leaving out either builds the same invocation.
pub proof fn lemma_audio_implies_sound(a: SandboxArgs, b: SandboxArgs, h: Host, pl: Plumbing)
    requires
        a.audio,
        same_but_media(a, b),
        a.wayland == b.wayland,
    ensures
        bwrap_argv(a, h, pl) == bwrap_argv(b, h, pl),
{
    assert(seg_user(a, h) == seg_user(b, h));
}

/// `--network` shares the host's network namespace: the invocation holds
/// `--share-net` right after `--unshare-all`. Without it (as with `--pasta`)
/// the isolation section is only `--die-with-parent --unshare-all`, so the
/// network namespace stays unshared.
pub proof fn lemma_network_modes(a: SandboxArgs, h: Host, pl: Plumbing)
    ensures
        a.network ==> builtin_argv(a, h, pl).contains("--share-net"@),
        !a.network ==> seg_isolation(a) == seq!["--die-with-parent"@, "--unshare-all"@],
{
    if a.network {
        let pre = seg_base(a, h) + seg_home(a, h) + seg_etc(h, pl);
        let b = builtin_argv(a, h, pl);
        assert(b[pre.len() + 2int] == "--share-net"@);
    } else {
        assert(seg_isolation(a) =~= seq!["--die-with-parent"@, "--unshare-all"@]);
    }
}

/// `s` holds `x`, `y`, `z` one after the other.
pub open spec fn has_triple(s: Seq<Seq<char>>, x: Seq<char>, y: Seq<char>, z: Seq<char>) -> bool {
    exists|i: int| 0 <= i && i + 2 < s.len() && #[trigger] s[i] == x && s[i + 1] == y && s[i + 2] == z
}

/// With `--gpu` the GPU device directory is bound with device access
/// (`--dev-bind /dev/dri /dev/dri`) and the character-device table is bound
/// read-only (`--ro-bind /sys/dev/char /sys/dev/char`).
#[verifier::spinoff_prover]
#[verifier::rlimit(40)]
pub proof fn lemma_gpu_binds_devices(a: SandboxArgs, h: Host, pl: Plumbing)
    requires
        a.gpu,
    ensures
        has_triple(bwrap_argv(a, h, pl), "--dev-bind"@, "/dev/dri"@, "/dev/dri"@),
        has_triple(bwrap_argv(a, h, pl), "--ro-bind"@, "/sys/dev/char"@, "/sys/dev/char"@),
{
    let pre = seg_base(a, h) + seg_home(a, h) + seg_etc(h, pl) + seg_isolation(a) + seg_network_files(a, h)
        + seg_pasta(pl) + seg_env(a, h) + seg_runtime(a, h);
    let g = seg_gpu(a, h);
    let p = pre.len() as int;
    let c0 = pre + g;
    assert(g[0] == "--dev-bind"@ && g[1] == "/dev/dri"@ && g[2] == "/dev/dri"@);
    assert(g[3] == "--ro-bind"@ && g[4] == "/sys/dev/char"@ && g[5] == "/sys/dev/char"@);
    assert(forall|j: int| 0 <= j < 6 ==> #[trigger] c0[p + j] == g[j]);
    let c1 = c0 + seg_wayland(a, h);
    assert(forall|j: int| 0 <= j < 6 ==> #[trigger] c1[p + j] == c0[p + j]);
    let c2 = c1 + seg_pulse(a, h);
    assert(forall|j: int| 0 <= j < 6 ==> #[trigger] c2[p + j] == c1[p + j]);
    let c3 = c2 + seg_pipewire(a, h);
    assert(forall|j: int| 0 <= j < 6 ==> #[trigger] c3[p + j] == c2[p + j]);
    let c4 = c3 + seg_gui(a, h);
    assert(forall|j: int| 0 <= j < 6 ==> #[trigger] c4[p + j] == c3[p + j]);
    let c5 = c4 + seg_camera(a, h);
    assert(forall|j: int| 0 <= j < 6 ==> #[trigger] c5[p + j] == c4[p + j]);
    let c6 = c5 + seg_dbus(h, pl);
    assert(forall|j: int| 0 <= j < 6 ==> #[trigger] c6[p + j] == c5[p + j]);
    let c7 = c6 + seg_user(a, h);
    assert(forall|j: int| 0 <= j < 6 ==> #[trigger] c7[p + j] == c6[p + j]);
    let c8 = c7 + seg_session(a);
    assert(forall|j: int| 0 <= j < 6 ==> #[trigger] c8[p + j] == c7[p + j]);
    let v = bwrap_argv(a, h, pl);
    assert(v == c8);
    assert(v[p] == g[0] && v[p + 1] == g[1] && v[p + 2] == g[2]);
    assert(v[p + 3] == g[3] && v[p + 4] == g[4] && v[p + 5] == g[5]);
}

/// The sandbox's `/etc/group` line names the group by the host's name for
/// it when the group database has one, by the numeric gid only when it has
/// none, and lists the user as its member.
pub proof fn lemma_group_line_names(h: Host)
    ensures
        h.group_name matches Some(g) ==> group_line(h).take(g@.len() + 5int) == g@ + ":x:0:"@,
        h.group_name is None ==> group_line(h).take(decimal(h.gid as nat).len() + 5int) == decimal(
            h.gid as nat,
        ) + ":x:0:"@,
        group_line(h).skip(group_line(h).len() - h.user_name().len() - 1) == h.user_name() + "\n"@,
{
    reveal_strlit(":x:0:");
    reveal_strlit("\n");
    let l = group_line(h);
    assert(l =~= h.group() + (":x:0:"@ + (h.user_name() + "\n"@)));
    assert(l.take(h.group().len() + 5int) =~= h.group() + ":x:0:"@);
    assert(l.skip(l.len() - h.user_name().len() - 1) =~= h.user_name() + "\n"@);
}

/// User-supplied mounts and environment are applied after every built-in
/// argument (only `--new-session` follows them), and the built-in part
/// does not depend on them.
pub proof fn lemma_user_overrides_last(a: SandboxArgs, b: SandboxArgs, h: Host, pl: Plumbing)
    requires
        same_but_overrides(a, b),
    ensures
        bwrap_argv(a, h, pl) == builtin_argv(a, h, pl) + seg_user(a, h) + seg_session(a),
        builtin_argv(a, h, pl) == builtin_argv(b, h, pl),
        seg_session(a) == seg_session(b),
{
}

// ---------------------------------------------------------------------------
// Building the invocation
// ---------------------------------------------------------------------------

fn add_fd_file(cmd: &mut BwrapArgs, fd: Option<i32>, dst: &str)
    ensures
        final(cmd)@ == old(cmd)@ + fd_file(fd, dst@),
{
    match fd {
        Some(f) => cmd.file(f, dst),
        None => {
            assert(cmd@ =~= cmd@ + fd_file(fd, dst@));
        },
    }
}

fn add_ro_if_exists(cmd: &mut BwrapArgs, h: &Host, p: &str)
    ensures
        final(cmd)@ == old(cmd)@ + ro_if_exists(*h, p@),
{
    if h.path_exists(p) {
        cmd.ro_bind(p, p);
    } else {
        assert(cmd@ =~= cmd@ + ro_if_exists(*h, p@));
    }
}

fn add_dev_if_exists(cmd: &mut BwrapArgs, h: &Host, p: &str)
    ensures
        final(cmd)@ == old(cmd)@ + dev_if_exists(*h, p@),
{
    if h.path_exists(p) {
        cmd.dev_bind(p, p);
    } else {
        assert(cmd@ =~= cmd@ + dev_if_exists(*h, p@));
    }
}

fn add_real_bind(cmd: &mut BwrapArgs, h: &Host, p: &str)
    ensures
        final(cmd)@ == old(cmd)@ + real_bind(*h, p@),
{
    match h.canonical_of(p) {
        Some(r) => cmd.ro_bind_try(r.as_str(), r.as_str()),
        None => {
            assert(cmd@ =~= cmd@ + real_bind(*h, p@));
        },
    }
}

fn add_var_env(cmd: &mut BwrapArgs, h: &Host, k: &str)
    ensures
        final(cmd)@ == old(cmd)@ + var_env(*h, k@),
{
    match h.env(k) {
        Some(v) => cmd.setenv(k, v.as_str()),
        None => {
            assert(cmd@ =~= cmd@ + var_env(*h, k@));
        },
    }
}

fn add_cert_var(cmd: &mut BwrapArgs, h: &Host, k: &str)
    ensures
        final(cmd)@ == old(cmd)@ + cert_var(*h, k@),
{
    let ghost before = cmd@;
    match h.env(k) {
        Some(v) => {
            add_real_bind(cmd, h, v.as_str());
            cmd.setenv(k, v.as_str());
            assert(cmd@ =~= before + (real_bind(*h, v@) + opt2("--setenv"@, k@, v@)));
        },
        None => {
            assert(cmd@ =~= cmd@ + cert_var(*h, k@));
        },
    }
}

fn add_base(cmd: &mut BwrapArgs, a: &SandboxArgs, h: &Host)
    ensures
        final(cmd)@ == old(cmd)@ + seg_base(*a, *h),
{
    let ghost before = cmd@;
    cmd.proc("/proc");
    cmd.dev("/dev");
    match &a.share_tmp {
        Some(name) => {
            let scoped = share_tmp_dir(h, name.as_str());
            cmd.bind(scoped.as_str(), "/tmp");
        },
        None => {
            cmd.tmpfs("/tmp");
        },
    }
    assert(cmd@ =~= before + seg_base(*a, *h));
}

fn add_home(cmd: &mut BwrapArgs, a: &SandboxArgs, h: &Host)
    ensures
        final(cmd)@ == old(cmd)@ + seg_home(*a, *h),
{
    let home = h.home();
    match &a.persist_home {
        Some(name) => {
            let persist = match &h.persist_dir {
                Some(p) => p.clone(),
                None => {
                    let rel = concat3(".local/share/bubblewand/", name.as_str(), "/home");
                    path_join(home.as_str(), rel.as_str())
                },
            };
            cmd.bind(persist.as_str(), home.as_str());
        },
        None => {
            cmd.dir(home.as_str());
        },
    }
}

fn add_etc(cmd: &mut BwrapArgs, h: &Host, pl: &Plumbing)
    ensures
        final(cmd)@ == old(cmd)@ + seg_etc(*h, *pl),
{
    let ghost before = cmd@;
    cmd.tmpfs("/etc");
    add_fd_file(cmd, pl.passwd_fd, "/etc/passwd");
    add_fd_file(cmd, pl.group_fd, "/etc/group");
    add_fd_file(cmd, pl.hostname_fd, "/etc/hostname");
    add_ro_if_exists(cmd, h, "/etc/localtime");
    assert(cmd@ =~= before + seg_etc(*h, *pl));
}

fn add_isolation(cmd: &mut BwrapArgs, a: &SandboxArgs)
    ensures
        final(cmd)@ == old(cmd)@ + seg_isolation(*a),
{
    let ghost before = cmd@;
    cmd.die_with_parent();
    cmd.unshare_all();
    if a.network {
        cmd.share_net();
    }
    assert(cmd@ =~= before + seg_isolation(*a));
}

fn add_net_conf(cmd: &mut BwrapArgs)
    ensures
        final(cmd)@ == old(cmd)@ + net_conf(),
{
    let ghost before = cmd@;
    cmd.ro_bind("/etc/hosts", "/etc/hosts");
    cmd.ro_bind("/etc/nsswitch.conf", "/etc/nsswitch.conf");
    cmd.ro_bind("/etc/resolv.conf", "/etc/resolv.conf");
    assert(cmd@ =~= before + net_conf());
}

#[verifier::spinoff_prover]
fn add_net_certs(cmd: &mut BwrapArgs, h: &Host)
    ensures
        final(cmd)@ == old(cmd)@ + net_certs(*h),
{
    let ghost before = cmd@;
    cmd.ro_bind("/etc/ssl", "/etc/ssl");
    let ghost mid = cmd@;
    if h.path_exists("/etc/static/ssl") {
        cmd.ro_bind_try("/etc/static/ssl", "/etc/static/ssl");
    }
    assert(cmd@ =~= mid + (if h.has_path("/etc/static/ssl"@) {
        opt2("--ro-bind-try"@, "/etc/static/ssl"@, "/etc/static/ssl"@)
    } else {
        seq![]
    }));
    let ghost mid2 = cmd@;
    add_real_bind(cmd, h, "/etc/ssl/certs/ca-certificates.crt");
    add_real_bind(cmd, h, "/etc/ssl/certs/ca-bundle.crt");
    let ghost mid3 = cmd@;
    assert(mid3 == mid2 + real_bind(*h, "/etc/ssl/certs/ca-certificates.crt"@) + real_bind(
        *h,
        "/etc/ssl/certs/ca-bundle.crt"@,
    ));
    add_cert_var(cmd, h, "NIX_SSL_CERT_FILE");
    add_cert_var(cmd, h, "SSL_CERT_FILE");
    add_cert_var(cmd, h, "SSL_CERT_DIR");
    assert(cmd@ == mid3 + cert_var(*h, "NIX_SSL_CERT_FILE"@) + cert_var(*h, "SSL_CERT_FILE"@) + cert_var(
        *h,
        "SSL_CERT_DIR"@,
    ));
    assert(cmd@ =~= before + net_certs(*h));
}

fn add_network_files(cmd: &mut BwrapArgs, a: &SandboxArgs, h: &Host)
    ensures
        final(cmd)@ == old(cmd)@ + seg_network_files(*a, *h),
{
    let ghost before = cmd@;
    if a.need_network_files() {
        add_net_conf(cmd);
        add_net_certs(cmd, h);
        add_var_env(cmd, h, "TZ");
    }
    assert(cmd@ =~= before + seg_network_files(*a, *h));
}

fn add_pasta(cmd: &mut BwrapArgs, pl: &Plumbing)
    ensures
        final(cmd)@ == old(cmd)@ + seg_pasta(*pl),
{
    let ghost before = cmd@;
    match pl.pasta_fds {
        Some((info, block)) => {
            cmd.flag("--info-fd");
            cmd.push(i32_string(info));
            cmd.flag("--block-fd");
            cmd.push(i32_string(block));
        },
        None => {},
    }
    assert(cmd@ =~= before + seg_pasta(*pl));
}

fn add_env(cmd: &mut BwrapArgs, a: &SandboxArgs, h: &Host)
    ensures
        final(cmd)@ == old(cmd)@ + seg_env(*a, *h),
{
    let ghost before = cmd@;
    cmd.hostname(a.hostname.as_str());
    let ghost mid = cmd@;
    if !a.keep_env {
        cmd.clearenv();
    }
    assert(cmd@ =~= mid + (if !a.keep_env {
        seq!["--clearenv"@]
    } else {
        seq![]
    }));
    let home = h.home();
    cmd.setenv("HOME", home.as_str());
    add_var_env(cmd, h, "TERM");
    add_var_env(cmd, h, "LANG");
    add_var_env(cmd, h, "TZ");
    assert(cmd@ =~= before + seg_env(*a, *h));
}

fn add_runtime(cmd: &mut BwrapArgs, a: &SandboxArgs, h: &Host)
    ensures
        final(cmd)@ == old(cmd)@ + seg_runtime(*a, *h),
{
    let ghost before = cmd@;
    if a.need_wayland() || a.need_pulse() || a.need_pipewire() || a.need_dbus() {
        let rt = h.runtime_path();
        cmd.setenv("XDG_RUNTIME_DIR", rt.as_str());
        cmd.dir(rt.as_str());
    }
    assert(cmd@ =~= before + seg_runtime(*a, *h));
}

fn add_ro_each(cmd: &mut BwrapArgs, ps: &Vec<String>)
    ensures
        final(cmd)@ == old(cmd)@ + ro_each(ps@),
{
    let ghost start = cmd@;
    let mut k: usize = 0;
    assert(ps@.take(0) =~= Seq::<String>::empty());
    assert(start + ro_each(ps@.take(0)) =~= start);
    while k < ps.len()
        invariant
            k <= ps.len(),
            cmd@ == start + ro_each(ps@.take(k as int)),
        decreases ps.len() - k,
    {
        let ghost before = cmd@;
        cmd.ro_bind(ps[k].as_str(), ps[k].as_str());
        assert(ps@.take(k + 1).drop_last() =~= ps@.take(k as int));
        assert(cmd@ =~= start + ro_each(ps@.take(k + 1)));
        k += 1;
    }
    assert(ps@.take(ps.len() as int) =~= ps@);
}

fn add_gpu(cmd: &mut BwrapArgs, a: &SandboxArgs, h: &Host)
    ensures
        final(cmd)@ == old(cmd)@ + seg_gpu(*a, *h),
{
    let ghost before = cmd@;
    if a.gpu {
        cmd.dev_bind("/dev/dri", "/dev/dri");
        cmd.ro_bind("/sys/dev/char", "/sys/dev/char");
        add_ro_if_exists(cmd, h, "/run/opengl-driver");
        add_ro_if_exists(cmd, h, "/run/opengl-driver-32");
        add_ro_each(cmd, &h.gpu_devices);
    }
    assert(cmd@ =~= before + seg_gpu(*a, *h));
}

/// The Wayland display.
fn display_of(h: &Host) -> (d: String)
    ensures
        d@ == wayland_display(*h),
{
    match h.env("WAYLAND_DISPLAY") {
        Some(d) => d,
        None => string_from("wayland-1"),
    }
}

fn add_wayland(cmd: &mut BwrapArgs, a: &SandboxArgs, h: &Host)
    ensures
        final(cmd)@ == old(cmd)@ + seg_wayland(*a, *h),
{
    let ghost before = cmd@;
    if a.need_wayland() {
        let display = display_of(h);
        let rt = h.runtime_path();
        let sock = concat3(rt.as_str(), "/", display.as_str());
        cmd.ro_bind(sock.as_str(), sock.as_str());
        cmd.setenv("WAYLAND_DISPLAY", display.as_str());
        add_var_env(cmd, h, "XDG_SESSION_TYPE");
    }
    assert(cmd@ =~= before + seg_wayland(*a, *h));
}

fn add_pulse(cmd: &mut BwrapArgs, a: &SandboxArgs, h: &Host)
    ensures
        final(cmd)@ == old(cmd)@ + seg_pulse(*a, *h),
{
    let ghost before = cmd@;
    if a.need_pulse() {
        cmd.bind_try("/run/pulse", "/run/pulse");
        let rt = h.runtime_path();
        let sock = concat2(rt.as_str(), "/pulse");
        cmd.bind_try(sock.as_str(), sock.as_str());
        add_var_env(cmd, h, "PULSE_SERVER");
    }
    assert(cmd@ =~= before + seg_pulse(*a, *h));
}

fn add_pipewire(cmd: &mut BwrapArgs, a: &SandboxArgs, h: &Host)
    ensures
        final(cmd)@ == old(cmd)@ + seg_pipewire(*a, *h),
{
    let ghost before = cmd@;
    if a.need_pipewire() {
        cmd.bind_try("/run/pipewire", "/run/pipewire");
        let rt = h.runtime_path();
        let sock = concat2(rt.as_str(), "/pipewire-0");
        cmd.bind_try(sock.as_str(), sock.as_str());
    }
    assert(cmd@ =~= before + seg_pipewire(*a, *h));
}

fn add_data_dirs(cmd: &mut BwrapArgs, h: &Host)
    ensures
        final(cmd)@ == old(cmd)@ + seg_data_dirs(*h),
{
    let ghost before = cmd@;
    match h.env("XDG_DATA_DIRS") {
        Some(v) => {
            let vc = chars_of(v.as_str());
            let pieces = split_chars(&vc, ':');
            let ghost ds = seqs_of(pieces@);
            let nix = chars_of("/nix/");
            let mut resolved: Vec<String> = Vec::new();
            let mut k: usize = 0;
            assert(ds.take(0) =~= Seq::<Seq<char>>::empty());
            assert(cmd@ =~= before + data_dirs_scan(*h, ds.take(0)).0);
            assert(views(resolved@) =~= data_dirs_scan(*h, ds.take(0)).1);
            while k < pieces.len()
                invariant
                    k <= pieces.len(),
                    ds == seqs_of(pieces@),
                    nix@ == "/nix/"@,
                    cmd@ == before + data_dirs_scan(*h, ds.take(k as int)).0,
                    views(resolved@) == data_dirs_scan(*h, ds.take(k as int)).1,
                decreases pieces.len() - k,
            {
                assert(ds.take(k + 1).drop_last() =~= ds.take(k as int));
                assert(ds.take(k + 1).last() == pieces@[k as int]@);
                let ghost c0 = cmd@;
                let ghost r0 = views(resolved@);
                let dir = string_of(&pieces[k]);
                if pieces[k].len() > 0 {
                    match h.canonical_of(dir.as_str()) {
                        Some(canon) => {
                            if h.path_is_dir(canon.as_str()) {
                                let rc = chars_of(canon.as_str());
                                if !starts_with(&rc, &nix) {
                                    cmd.ro_bind_try(canon.as_str(), canon.as_str());
                                }
                                assert(cmd@ =~= c0 + (if !has_prefix(canon@, "/nix/"@) {
                                    opt2("--ro-bind-try"@, canon@, canon@)
                                } else {
                                    seq![]
                                }));
                                let ghost rv = canon@;
                                resolved.push(canon);
                                assert(views(resolved@) =~= r0.push(rv));
                            } else {
                                assert(cmd@ =~= c0 + Seq::<Seq<char>>::empty());
                            }
                        },
                        None => {},
                    }
                }
                k += 1;
            }
            assert(ds.take(pieces.len() as int) =~= ds);
            let joined = join_strings(&resolved, ":");
            cmd.setenv("XDG_DATA_DIRS", joined.as_str());
        },
        None => {},
    }
    assert(cmd@ =~= before + seg_data_dirs(*h));
}

fn add_cursor_path(cmd: &mut BwrapArgs, h: &Host)
    ensures
        final(cmd)@ == old(cmd)@ + seg_cursor_path(*h),
{
    let ghost before = cmd@;
    match h.env("XCURSOR_PATH") {
        Some(v) => {
            cmd.setenv("XCURSOR_PATH", v.as_str());
            let ghost start = cmd@;
            let vc = chars_of(v.as_str());
            let pieces = split_chars(&vc, ':');
            let ghost ds = seqs_of(pieces@);
            let mut k: usize = 0;
            assert(ds.take(0) =~= Seq::<Seq<char>>::empty());
            assert(cmd@ =~= start + cursor_dirs(*h, ds.take(0)));
            while k < pieces.len()
                invariant
                    k <= pieces.len(),
                    ds == seqs_of(pieces@),
                    cmd@ == start + cursor_dirs(*h, ds.take(k as int)),
                decreases pieces.len() - k,
            {
                assert(ds.take(k + 1).drop_last() =~= ds.take(k as int));
                assert(ds.take(k + 1).last() == pieces@[k as int]@);
                let ghost c0 = cmd@;
                let dir = string_of(&pieces[k]);
                if pieces[k].len() > 0 && h.path_is_dir(dir.as_str()) {
                    cmd.ro_bind_try(dir.as_str(), dir.as_str());
                }
                assert(cmd@ =~= start + cursor_dirs(*h, ds.take(k + 1)));
                k += 1;
            }
            assert(ds.take(pieces.len() as int) =~= ds);
        },
        None => {},
    }
    assert(cmd@ =~= before + seg_cursor_path(*h));
}

fn add_gui(cmd: &mut BwrapArgs, a: &SandboxArgs, h: &Host)
    ensures
        final(cmd)@ == old(cmd)@ + seg_gui(*a, *h),
{
    let ghost before = cmd@;
    if a.gui {
        cmd.ro_bind_try("/etc/fonts", "/etc/fonts");
        let home = h.home();
        let dconf = concat2(home.as_str(), "/.config/dconf");
        cmd.tmpfs(dconf.as_str());
        cmd.ro_bind_try(dconf.as_str(), dconf.as_str());
        add_data_dirs(cmd, h);
        add_var_env(cmd, h, "XCURSOR_THEME");
        add_var_env(cmd, h, "XCURSOR_SIZE");
        add_cursor_path(cmd, h);
    }
    assert(cmd@ =~= before + seg_gui(*a, *h));
}

fn add_camera(cmd: &mut BwrapArgs, a: &SandboxArgs, h: &Host)
    ensures
        final(cmd)@ == old(cmd)@ + seg_camera(*a, *h),
{
    let ghost before = cmd@;
    if a.camera {
        let mut i: u32 = 0;
        assert(cmd@ =~= before + cameras_upto(*h, 0));
        while i <= 63
            invariant
                i <= 64,
                cmd@ == before + cameras_upto(*h, i as nat),
            decreases 64 - i,
        {
            let n = decimal_string(i as u64);
            let path = concat2("/dev/video", n.as_str());
            let ghost c0 = cmd@;
            add_dev_if_exists(cmd, h, path.as_str());
            assert(cmd@ =~= before + cameras_upto(*h, (i + 1) as nat));
            i += 1;
        }
    }
    assert(cmd@ =~= before + seg_camera(*a, *h));
}

fn add_dbus(cmd: &mut BwrapArgs, h: &Host, pl: &Plumbing)
    ensures
        final(cmd)@ == old(cmd)@ + seg_dbus(*h, *pl),
{
    let ghost before = cmd@;
    match &pl.dbus_socket {
        Some(socket) => {
            let rt = h.runtime_path();
            let dest = concat2(rt.as_str(), "/bus");
            cmd.ro_bind(socket.as_str(), dest.as_str());
            let addr = concat2("unix:path=", dest.as_str());
            cmd.setenv("DBUS_SESSION_BUS_ADDRESS", addr.as_str());
            assert(addr@ =~= "unix:path="@ + h.runtime() + "/bus"@);
        },
        None => {},
    }
    assert(cmd@ =~= before + seg_dbus(*h, *pl));
}

fn add_bind_specs(cmd: &mut BwrapArgs, opt: &str, specs: &Vec<String>)
    ensures
        final(cmd)@ == old(cmd)@ + bind_specs(opt@, specs@),
{
    let ghost start = cmd@;
    let mut k: usize = 0;
    assert(specs@.take(0) =~= Seq::<String>::empty());
    assert(start + bind_specs(opt@, specs@.take(0)) =~= start);
    while k < specs.len()
        invariant
            k <= specs.len(),
            cmd@ == start + bind_specs(opt@, specs@.take(k as int)),
        decreases specs.len() - k,
    {
        assert(specs@.take(k + 1).drop_last() =~= specs@.take(k as int));
        let ghost c0 = cmd@;
        match split_once_at(specs[k].as_str(), ':') {
            Some((src, dst)) => {
                cmd.option2(opt, src.as_str(), dst.as_str());
            },
            None => {},
        }
        assert(cmd@ =~= start + bind_specs(opt@, specs@.take(k + 1)));
        k += 1;
    }
    assert(specs@.take(specs.len() as int) =~= specs@);
}

fn add_tmpfs_each(cmd: &mut BwrapArgs, ps: &Vec<String>)
    ensures
        final(cmd)@ == old(cmd)@ + tmpfs_each(ps@),
{
    let ghost start = cmd@;
    let mut k: usize = 0;
    assert(ps@.take(0) =~= Seq::<String>::empty());
    assert(start + tmpfs_each(ps@.take(0)) =~= start);
    while k < ps.len()
        invariant
            k <= ps.len(),
            cmd@ == start + tmpfs_each(ps@.take(k as int)),
        decreases ps.len() - k,
    {
        assert(ps@.take(k + 1).drop_last() =~= ps@.take(k as int));
        cmd.tmpfs(ps[k].as_str());
        assert(cmd@ =~= start + tmpfs_each(ps@.take(k + 1)));
        k += 1;
    }
    assert(ps@.take(ps.len() as int) =~= ps@);
}

fn add_set_envs(cmd: &mut BwrapArgs, kvs: &Vec<String>)
    ensures
        final(cmd)@ == old(cmd)@ + set_envs(kvs@),
{
    let ghost start = cmd@;
    let mut k: usize = 0;
    assert(kvs@.take(0) =~= Seq::<String>::empty());
    assert(start + set_envs(kvs@.take(0)) =~= start);
    while k < kvs.len()
        invariant
            k <= kvs.len(),
            cmd@ == start + set_envs(kvs@.take(k as int)),
        decreases kvs.len() - k,
    {
        assert(kvs@.take(k + 1).drop_last() =~= kvs@.take(k as int));
        match split_once_at(kvs[k].as_str(), '=') {
            Some((key, val)) => {
                cmd.setenv(key.as_str(), val.as_str());
            },
            None => {},
        }
        assert(cmd@ =~= start + set_envs(kvs@.take(k + 1)));
        k += 1;
    }
    assert(kvs@.take(kvs.len() as int) =~= kvs@);
}

fn add_fwd_envs(cmd: &mut BwrapArgs, h: &Host, keys: &Vec<String>)
    ensures
        final(cmd)@ == old(cmd)@ + fwd_envs(*h, keys@),
{
    let ghost start = cmd@;
    let mut k: usize = 0;
    assert(keys@.take(0) =~= Seq::<String>::empty());
    assert(start + fwd_envs(*h, keys@.take(0)) =~= start);
    while k < keys.len()
        invariant
            k <= keys.len(),
            cmd@ == start + fwd_envs(*h, keys@.take(k as int)),
        decreases keys.len() - k,
    {
        assert(keys@.take(k + 1).drop_last() =~= keys@.take(k as int));
        add_var_env(cmd, h, keys[k].as_str());
        assert(cmd@ =~= start + fwd_envs(*h, keys@.take(k + 1)));
        k += 1;
    }
    assert(keys@.take(keys.len() as int) =~= keys@);
}

fn add_user(cmd: &mut BwrapArgs, a: &SandboxArgs, h: &Host)
    ensures
        final(cmd)@ == old(cmd)@ + seg_user(*a, *h),
{
    let ghost before = cmd@;
    add_bind_specs(cmd, "--ro-bind", &a.ro_bind);
    add_bind_specs(cmd, "--bind", &a.rw_bind);
    add_tmpfs_each(cmd, &a.tmpfs);
    add_set_envs(cmd, &a.set_env);
    add_fwd_envs(cmd, h, &a.fwd_env);
    assert(cmd@ =~= before + seg_user(*a, *h));
}

/// Builds the bwrap invocation, in the order of its sections: base
/// filesystem, home, `/etc`, isolation, network files, pasta descriptors,
/// environment, runtime directory, GPU, Wayland, PulseAudio, PipeWire, GUI
/// extras, cameras, DBus, user-supplied mounts and environment, session.
#[verifier::spinoff_prover]
#[verifier::rlimit(40)]
pub fn build_bwrap_args(args: &SandboxArgs, host: &Host, plumbing: &Plumbing) -> (cmd: BwrapArgs)
    ensures
        cmd@ == bwrap_argv(*args, *host, *plumbing),
        args.gpu ==> has_triple(cmd@, "--dev-bind"@, "/dev/dri"@, "/dev/dri"@),
{
    let mut cmd = BwrapArgs::new();
    add_base(&mut cmd, args, host);
    add_home(&mut cmd, args, host);
    add_etc(&mut cmd, host, plumbing);
    add_isolation(&mut cmd, args);
    add_network_files(&mut cmd, args, host);
    add_pasta(&mut cmd, plumbing);
    add_env(&mut cmd, args, host);
    add_runtime(&mut cmd, args, host);
    add_gpu(&mut cmd, args, host);
    add_wayland(&mut cmd, args, host);
    add_pulse(&mut cmd, args, host);
    add_pipewire(&mut cmd, args, host);
    add_gui(&mut cmd, args, host);
    add_camera(&mut cmd, args, host);
    add_dbus(&mut cmd, host, plumbing);
    add_user(&mut cmd, args, host);
    if args.new_session {
        cmd.new_session();
    }
    assert(cmd@ =~= bwrap_argv(*args, *host, *plumbing));
    proof {
        if args.gpu {
            lemma_gpu_binds_devices(*args, *host, *plumbing);
        }
    }
    cmd
}

// ---------------------------------------------------------------------------
// What to ask of the host
// ---------------------------------------------------------------------------

/// The value of `k`, as a one-element list, when the host has it.
pub open spec fn var_value(h: Host, k: Seq<char>) -> Seq<Seq<char>> {
    match h.var(k) {
        Some(v) => seq![v],
        None => seq![],
    }
}

/// The `:`-separated pieces of `k`, when the host has it.
pub open spec fn var_pieces(h: Host, k: Seq<char>) -> Seq<Seq<char>> {
    match h.var(k) {
        Some(v) => split_on(v, ':'),
        None => seq![],
    }
}

/// `/dev/video0` .. `/dev/video{k-1}`.
pub open spec fn videos_upto(k: nat) -> Seq<Seq<char>>
    decreases k,
{
    if k == 0 {
        seq![]
    } else {
        videos_upto((k - 1) as nat).push(video_device((k - 1) as nat))
    }
}

/// The paths whose existence, kind or canonical form the invocation
/// depends on, given the host's environment and runtime directory.
pub open spec fn probe_list(h: Host) -> Seq<Seq<char>> {
    seq![
        "/etc/localtime"@,
        "/etc/static/ssl"@,
        "/etc/ssl/certs/ca-certificates.crt"@,
        "/etc/ssl/certs/ca-bundle.crt"@,
        "/run/opengl-driver"@,
        "/run/opengl-driver-32"@,
    ] + var_value(h, "NIX_SSL_CERT_FILE"@) + var_value(h, "SSL_CERT_FILE"@) + var_value(
        h,
        "SSL_CERT_DIR"@,
    ) + var_pieces(h, "XDG_DATA_DIRS"@) + var_pieces(h, "XCURSOR_PATH"@) + videos_upto(64)
}

fn push_var_value(out: &mut Vec<String>, h: &Host, k: &str)
    ensures
        views(final(out)@) == views(old(out)@) + var_value(*h, k@),
{
    let ghost before = views(out@);
    match h.env(k) {
        Some(v) => {
            out.push(v);
        },
        None => {},
    }
    assert(views(out@) =~= before + var_value(*h, k@));
}

fn push_var_pieces(out: &mut Vec<String>, h: &Host, k: &str)
    ensures
        views(final(out)@) == views(old(out)@) + var_pieces(*h, k@),
{
    let ghost before = views(out@);
    match h.env(k) {
        Some(v) => {
            let vc = chars_of(v.as_str());
            let pieces = split_chars(&vc, ':');
            let ghost ds = seqs_of(pieces@);
            let mut i: usize = 0;
            assert(ds.take(0) =~= Seq::<Seq<char>>::empty());
            assert(views(out@) =~= before + ds.take(0));
            while i < pieces.len()
                invariant
                    i <= pieces.len(),
                    ds == seqs_of(pieces@),
                    views(out@) == before + ds.take(i as int),
                decreases pieces.len() - i,
            {
                let ghost o0 = views(out@);
                let piece = string_of(&pieces[i]);
                out.push(piece);
                assert(views(out@) =~= o0.push(pieces@[i as int]@));
                assert(ds.take(i + 1) =~= ds.take(i as int).push(pieces@[i as int]@));
                assert(views(out@) =~= before + ds.take(i + 1));
                i += 1;
            }
            assert(ds.take(pieces.len() as int) =~= ds);
        },
        None => {},
    }
    assert(views(out@) =~= before + var_pieces(*h, k@));
}

/// The paths to examine on the host before building the invocation.
pub fn paths_to_probe(host: &Host) -> (out: Vec<String>)
    ensures
        views(out@) == probe_list(*host),
{
    let mut out: Vec<String> = Vec::new();
    out.push(string_from("/etc/localtime"));
    out.push(string_from("/etc/static/ssl"));
    out.push(string_from("/etc/ssl/certs/ca-certificates.crt"));
    out.push(string_from("/etc/ssl/certs/ca-bundle.crt"));
    out.push(string_from("/run/opengl-driver"));
    out.push(string_from("/run/opengl-driver-32"));
    let ghost head = views(out@);
    push_var_value(&mut out, host, "NIX_SSL_CERT_FILE");
    push_var_value(&mut out, host, "SSL_CERT_FILE");
    push_var_value(&mut out, host, "SSL_CERT_DIR");
    push_var_pieces(&mut out, host, "XDG_DATA_DIRS");
    push_var_pieces(&mut out, host, "XCURSOR_PATH");
    let ghost mid = views(out@);
    let mut i: u32 = 0;
    assert(views(out@) =~= mid + videos_upto(0));
    while i <= 63
        invariant
            i <= 64,
            views(out@) == mid + videos_upto(i as nat),
        decreases 64 - i,
    {
        let n = decimal_string(i as u64);
        let ghost o0 = views(out@);
        let p = concat2("/dev/video", n.as_str());
        out.push(p);
        assert(views(out@) =~= o0.push(video_device(i as nat)));
        assert(views(out@) =~= mid + videos_upto((i + 1) as nat));
        i += 1;
    }
    assert(views(out@) =~= probe_list(*host));
    out
}

} // verus!
