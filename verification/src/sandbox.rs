//! The sandbox flags shared by the runtime and the wrapper generator, the
//! feature groups they imply, and their rendering back to command-line
//! flags for wrapper scripts.
use vstd::prelude::*;
use crate::lcs::views;
use crate::text::{string_from, push_str};

verus! {

/// The sandbox flags.
pub struct SandboxArgs {
    /// Enable GUI stack (wayland + audio + fonts + cursors)
    pub gui: bool,
    /// Enable audio (pulse + pipewire)
    pub audio: bool,
    pub network: bool,
    /// Isolated network namespace bridged to the host via pasta (rootless)
    pub pasta: bool,
    /// TCP port-forwarding spec passed to `pasta -t` (repeatable)
    pub pasta_tcp: Vec<String>,
    /// UDP port-forwarding spec passed to `pasta -u` (repeatable)
    pub pasta_udp: Vec<String>,
    /// MAC address for the pasta TAP interface
    pub pasta_mac: Option<String>,
    pub gpu: bool,
    pub wayland: bool,
    pub pulse: bool,
    pub pipewire: bool,
    pub camera: bool,
    pub dbus_talk: Vec<String>,
    pub dbus_own: Vec<String>,
    pub persist_home: Option<String>,
    pub share_tmp: Option<String>,
    /// Set env var inside the sandbox (KEY=VALUE)
    pub set_env: Vec<String>,
    /// Forward env var from host into sandbox
    pub fwd_env: Vec<String>,
    /// Read-only bind mount (HOST:DEST)
    pub ro_bind: Vec<String>,
    /// Read-write bind mount (HOST:DEST)
    pub rw_bind: Vec<String>,
    pub tmpfs: Vec<String>,
    pub hostname: String,
    pub new_session: bool,
    /// Inherit the host environment instead of starting with a clean slate
    pub keep_env: bool,
    /// Override the bwrap binary
    pub bwrap: Option<String>,
}

impl Default for SandboxArgs {
    /// No features, no mounts, hostname `bubble`.
    fn default() -> (a: Self)
        ensures
            a.hostname@ == "bubble"@,
            !a.gui && !a.audio && !a.network && !a.gpu,
            !a.wayland && !a.pulse && !a.pipewire && !a.camera,
            !a.pasta && !a.new_session && !a.keep_env,
            a.pasta_tcp@.len() == 0 && a.pasta_udp@.len() == 0,
            a.pasta_mac is None && a.persist_home is None && a.share_tmp is None,
            a.bwrap is None,
            a.dbus_talk@.len() == 0 && a.dbus_own@.len() == 0,
            a.set_env@.len() == 0 && a.fwd_env@.len() == 0,
            a.ro_bind@.len() == 0 && a.rw_bind@.len() == 0 && a.tmpfs@.len() == 0,
    {
        SandboxArgs {
            hostname: string_from("bubble"),
            gui: false,
            audio: false,
            network: false,
            gpu: false,
            wayland: false,
            pulse: false,
            pipewire: false,
            camera: false,
            pasta: false,
            pasta_tcp: Vec::new(),
            pasta_udp: Vec::new(),
            pasta_mac: None,
            new_session: false,
            keep_env: false,
            dbus_talk: Vec::new(),
            dbus_own: Vec::new(),
            persist_home: None,
            share_tmp: None,
            set_env: Vec::new(),
            fwd_env: Vec::new(),
            ro_bind: Vec::new(),
            rw_bind: Vec::new(),
            tmpfs: Vec::new(),
            bwrap: None,
        }
    }
}

impl SandboxArgs {
    /// Wayland is wanted directly or through the GUI group.
    pub open spec fn wants_wayland(&self) -> bool {
        self.wayland || self.gui
    }

    /// PulseAudio is wanted directly or through the audio or GUI groups.
    pub open spec fn wants_pulse(&self) -> bool {
        self.pulse || self.audio || self.gui
    }

    /// PipeWire is wanted directly or through the audio or GUI groups.
    pub open spec fn wants_pipewire(&self) -> bool {
        self.pipewire || self.audio || self.gui
    }

    /// A filtered DBus proxy is wanted: some name to talk to or to own.
    pub open spec fn wants_dbus(&self) -> bool {
        self.dbus_talk@.len() > 0 || self.dbus_own@.len() > 0
    }

    /// The host's network configuration files are wanted.
    pub open spec fn wants_network_files(&self) -> bool {
        self.network || self.pasta
    }

    pub fn need_wayland(&self) -> (b: bool)
        ensures
            b == self.wants_wayland(),
    {
        self.wayland || self.gui
    }

    pub fn need_pulse(&self) -> (b: bool)
        ensures
            b == self.wants_pulse(),
    {
        self.pulse || self.audio || self.gui
    }

    pub fn need_pipewire(&self) -> (b: bool)
        ensures
            b == self.wants_pipewire(),
    {
        self.pipewire || self.audio || self.gui
    }

    pub fn need_dbus(&self) -> (b: bool)
        ensures
            b == self.wants_dbus(),
    {
        !self.dbus_talk.is_empty() || !self.dbus_own.is_empty()
    }

    pub fn need_network_files(&self) -> (b: bool)
        ensures
            b == self.wants_network_files(),
    {
        self.network || self.pasta
    }

    /// The flags in the order `to_cli_args` renders them.
    pub open spec fn cli_args(&self) -> Seq<Seq<char>> {
        flag_arg(self.gui, "--gui"@) + flag_arg(self.audio, "--audio"@) + flag_arg(
            self.network,
            "--network"@,
        ) + flag_arg(self.pasta, "--pasta"@) + flag_arg(self.gpu, "--gpu"@) + flag_arg(
            self.wayland,
            "--wayland"@,
        ) + flag_arg(self.pulse, "--pulse"@) + flag_arg(self.pipewire, "--pipewire"@) + flag_arg(
            self.camera,
            "--camera"@,
        ) + flag_arg(self.new_session, "--new-session"@) + flag_arg(self.keep_env, "--keep-env"@)
            + seq![keyed("--hostname"@, self.hostname@)] + opt_arg(
            self.persist_home,
            "--persist-home"@,
        ) + opt_arg(self.share_tmp, "--share-tmp"@) + multi_arg(self.dbus_talk@, "--dbus-talk"@)
            + multi_arg(self.dbus_own@, "--dbus-own"@) + multi_arg(self.pasta_tcp@, "--pasta-tcp"@)
            + multi_arg(self.pasta_udp@, "--pasta-udp"@) + opt_arg(self.pasta_mac, "--pasta-mac"@)
            + multi_arg(self.set_env@, "--set-env"@) + multi_arg(self.fwd_env@, "--fwd-env"@)
            + multi_arg(self.ro_bind@, "--ro-bind"@) + multi_arg(self.rw_bind@, "--rw-bind"@)
            + multi_arg(self.tmpfs@, "--tmpfs"@) + opt_arg(self.bwrap, "--bwrap"@)
    }

    /// Serialize back to CLI args for embedding in wrapper scripts.
    #[verifier::spinoff_prover]
    #[verifier::rlimit(40)]
    pub fn to_cli_args(&self) -> (out: Vec<String>)
        ensures
            views(out@) == self.cli_args(),
            self.gui <==> views(out@).contains("--gui"@),
            self.audio <==> views(out@).contains("--audio"@),
            self.network <==> views(out@).contains("--network"@),
            self.pasta <==> views(out@).contains("--pasta"@),
            self.gpu <==> views(out@).contains("--gpu"@),
            self.wayland <==> views(out@).contains("--wayland"@),
            self.pulse <==> views(out@).contains("--pulse"@),
            self.pipewire <==> views(out@).contains("--pipewire"@),
            self.camera <==> views(out@).contains("--camera"@),
            self.new_session <==> views(out@).contains("--new-session"@),
            self.keep_env <==> views(out@).contains("--keep-env"@),
    {
        let mut out: Vec<String> = Vec::new();
        push_flag(&mut out, self.gui, "--gui");
        push_flag(&mut out, self.audio, "--audio");
        push_flag(&mut out, self.network, "--network");
        push_flag(&mut out, self.pasta, "--pasta");
        push_flag(&mut out, self.gpu, "--gpu");
        push_flag(&mut out, self.wayland, "--wayland");
        push_flag(&mut out, self.pulse, "--pulse");
        push_flag(&mut out, self.pipewire, "--pipewire");
        push_flag(&mut out, self.camera, "--camera");
        push_flag(&mut out, self.new_session, "--new-session");
        push_flag(&mut out, self.keep_env, "--keep-env");
        let ghost before = views(out@);
        out.push(keyed_string("--hostname", self.hostname.as_str()));
        assert(views(out@) =~= before + seq![keyed("--hostname"@, self.hostname@)]);
        push_opt(&mut out, &self.persist_home, "--persist-home");
        push_opt(&mut out, &self.share_tmp, "--share-tmp");
        push_multi(&mut out, &self.dbus_talk, "--dbus-talk");
        push_multi(&mut out, &self.dbus_own, "--dbus-own");
        push_multi(&mut out, &self.pasta_tcp, "--pasta-tcp");
        push_multi(&mut out, &self.pasta_udp, "--pasta-udp");
        push_opt(&mut out, &self.pasta_mac, "--pasta-mac");
        push_multi(&mut out, &self.set_env, "--set-env");
        push_multi(&mut out, &self.fwd_env, "--fwd-env");
        push_multi(&mut out, &self.ro_bind, "--ro-bind");
        push_multi(&mut out, &self.rw_bind, "--rw-bind");
        push_multi(&mut out, &self.tmpfs, "--tmpfs");
        push_opt(&mut out, &self.bwrap, "--bwrap");
        assert(views(out@) =~= self.cli_args());
        proof {
            lemma_cli_flags_round_trip(*self);
        }
        out
    }
}

/// `name=value`.
pub open spec fn keyed(name: Seq<char>, value: Seq<char>) -> Seq<char> {
    name + seq!['='] + value
}

/// `name` when the flag is set.
pub open spec fn flag_arg(set: bool, name: Seq<char>) -> Seq<Seq<char>> {
    if set {
        seq![name]
    } else {
        seq![]
    }
}

/// `name=value` when there is a value.
pub open spec fn opt_arg(v: Option<String>, name: Seq<char>) -> Seq<Seq<char>> {
    match v {
        Some(s) => seq![keyed(name, s@)],
        None => seq![],
    }
}

/// `name=value` for each value, in order.
pub open spec fn multi_arg(vs: Seq<String>, name: Seq<char>) -> Seq<Seq<char>>
    decreases vs.len(),
{
    if vs.len() == 0 {
        seq![]
    } else {
        multi_arg(vs.drop_last(), name).push(keyed(name, vs.last()@))
    }
}

/// Builds `name=value`.
fn keyed_string(name: &str, value: &str) -> (s: String)
    ensures
        s@ == keyed(name@, value@),
{
    let mut s = string_from(name);
    push_str(&mut s, "=");
    push_str(&mut s, value);
    proof {
        reveal_strlit("=");
    }
    assert(s@ =~= keyed(name@, value@));
    s
}

fn push_flag(out: &mut Vec<String>, set: bool, name: &str)
    ensures
        views(final(out)@) == views(old(out)@) + flag_arg(set, name@),
{
    if set {
        let ghost before = views(out@);
        out.push(string_from(name));
        assert(views(out@) =~= before + flag_arg(set, name@));
    } else {
        assert(views(out@) =~= views(out@) + flag_arg(set, name@));
    }
}

fn push_opt(out: &mut Vec<String>, v: &Option<String>, name: &str)
    ensures
        views(final(out)@) == views(old(out)@) + opt_arg(*v, name@),
{
    match v {
        Some(s) => {
            let ghost before = views(out@);
            out.push(keyed_string(name, s.as_str()));
            assert(views(out@) =~= before + opt_arg(*v, name@));
        },
        None => {
            assert(views(out@) =~= views(out@) + opt_arg(*v, name@));
        },
    }
}

fn push_multi(out: &mut Vec<String>, vs: &Vec<String>, name: &str)
    ensures
        views(final(out)@) == views(old(out)@) + multi_arg(vs@, name@),
{
    let ghost start = views(out@);
    let mut k: usize = 0;
    assert(vs@.take(0) =~= Seq::<String>::empty());
    assert(start =~= start + multi_arg(vs@.take(0), name@));
    while k < vs.len()
        invariant
            k <= vs.len(),
            views(out@) == start + multi_arg(vs@.take(k as int), name@),
        decreases vs.len() - k,
    {
        let ghost before = views(out@);
        out.push(keyed_string(name, vs[k].as_str()));
        assert(vs@.take(k + 1).drop_last() =~= vs@.take(k as int));
        assert(views(out@) =~= before.push(keyed(name@, vs@[k as int]@)));
        k += 1;
    }
    assert(vs@.take(vs.len() as int) =~= vs@);
}

/// Some character of `x` is `=`.
pub open spec fn has_equals(x: Seq<char>) -> bool {
    exists|i: int| 0 <= i < x.len() && x[i] == '='
}

/// A `name=value` argument holds `=`.
proof fn lemma_keyed_has_equals(name: Seq<char>, value: Seq<char>)
    ensures
        has_equals(keyed(name, value)),
{
    let k = keyed(name, value);
    assert(k[name.len() as int] == '=');
}

/// Every `name=value` argument of an optional value holds `=`.
proof fn lemma_opt_arg_equals(v: Option<String>, name: Seq<char>)
    ensures
        forall|i: int| 0 <= i < opt_arg(v, name).len() ==> has_equals(#[trigger] opt_arg(v, name)[i]),
{
    match v {
        Some(x) => lemma_keyed_has_equals(name, x@),
        None => {},
    }
}

/// Every `name=value` argument of a repeated value holds `=`.
proof fn lemma_multi_arg_equals(vs: Seq<String>, name: Seq<char>)
    ensures
        forall|i: int| 0 <= i < multi_arg(vs, name).len() ==> has_equals(#[trigger] multi_arg(vs, name)[i]),
    decreases vs.len(),
{
    if vs.len() > 0 {
        lemma_multi_arg_equals(vs.drop_last(), name);
        lemma_keyed_has_equals(name, vs.last()@);
        let m = multi_arg(vs, name);
        assert forall|i: int| 0 <= i < m.len() implies has_equals(#[trigger] m[i]) by {
            if i < m.len() - 1 {
                assert(m[i] == multi_arg(vs.drop_last(), name)[i]);
            }
        }
    }
}

/// Membership in a concatenation.
proof fn lemma_contains_concat(s: Seq<Seq<char>>, t: Seq<Seq<char>>, x: Seq<char>)
    ensures
        (s + t).contains(x) <==> (s.contains(x) || t.contains(x)),
{
    if (s + t).contains(x) {
        let i = choose|i: int| 0 <= i < (s + t).len() && (s + t)[i] == x;
        if i < s.len() {
            assert(s[i] == x);
        } else {
            assert(t[i - s.len()] == x);
        }
    }
    if s.contains(x) {
        let i = choose|i: int| 0 <= i < s.len() && s[i] == x;
        assert((s + t)[i] == x);
    }
    if t.contains(x) {
        let i = choose|i: int| 0 <= i < t.len() && t[i] == x;
        assert((s + t)[s.len() + i] == x);
    }
}

/// Adding a flag to a list: the list then holds `x` when it held it
/// before, or when `x` is the flag's name and the flag is set.
proof fn lemma_contains_flag(s: Seq<Seq<char>>, set: bool, name: Seq<char>, x: Seq<char>)
    ensures
        (s + flag_arg(set, name)).contains(x) <==> (s.contains(x) || (set && x == name)),
{
    lemma_contains_concat(s, flag_arg(set, name), x);
    if set {
        assert(flag_arg(set, name)[0] == name);
    }
}

/// Every argument holds `=`.
pub open spec fn all_have_equals(s: Seq<Seq<char>>) -> bool {
    forall|i: int| 0 <= i < s.len() ==> has_equals(#[trigger] s[i])
}

proof fn lemma_all_have_equals_concat(s: Seq<Seq<char>>, t: Seq<Seq<char>>)
    requires
        all_have_equals(s),
        all_have_equals(t),
    ensures
        all_have_equals(s + t),
{
    assert forall|i: int| 0 <= i < (s + t).len() implies has_equals(#[trigger] (s + t)[i]) by {
        if i < s.len() {
            assert((s + t)[i] == s[i]);
        } else {
            assert((s + t)[i] == t[i - s.len()]);
        }
    }
}

/// The boolean flags, as `cli_args` renders them first.
pub open spec fn flag_args(a: SandboxArgs) -> Seq<Seq<char>> {
    flag_arg(a.gui, "--gui"@) + flag_arg(a.audio, "--audio"@) + flag_arg(a.network, "--network"@)
        + flag_arg(a.pasta, "--pasta"@) + flag_arg(a.gpu, "--gpu"@) + flag_arg(a.wayland, "--wayland"@)
        + flag_arg(a.pulse, "--pulse"@) + flag_arg(a.pipewire, "--pipewire"@) + flag_arg(
        a.camera,
        "--camera"@,
    ) + flag_arg(a.new_session, "--new-session"@) + flag_arg(a.keep_env, "--keep-env"@)
}

/// The `name=value` arguments, as `cli_args` renders them after the flags.
pub open spec fn valued_args(a: SandboxArgs) -> Seq<Seq<char>> {
    seq![keyed("--hostname"@, a.hostname@)] + opt_arg(a.persist_home, "--persist-home"@) + opt_arg(
        a.share_tmp,
        "--share-tmp"@,
    ) + multi_arg(a.dbus_talk@, "--dbus-talk"@) + multi_arg(a.dbus_own@, "--dbus-own"@) + multi_arg(
        a.pasta_tcp@,
        "--pasta-tcp"@,
    ) + multi_arg(a.pasta_udp@, "--pasta-udp"@) + opt_arg(a.pasta_mac, "--pasta-mac"@) + multi_arg(
        a.set_env@,
        "--set-env"@,
    ) + multi_arg(a.fwd_env@, "--fwd-env"@) + multi_arg(a.ro_bind@, "--ro-bind"@) + multi_arg(
        a.rw_bind@,
        "--rw-bind"@,
    ) + multi_arg(a.tmpfs@, "--tmpfs"@) + opt_arg(a.bwrap, "--bwrap"@)
}

/// Every `name=value` argument holds `=`.
proof fn lemma_valued_args_equals(a: SandboxArgs)
    ensures
        all_have_equals(valued_args(a)),
{
    lemma_keyed_has_equals("--hostname"@, a.hostname@);
    let k1 = seq![keyed("--hostname"@, a.hostname@)];
    assert(all_have_equals(k1));
    let p2 = opt_arg(a.persist_home, "--persist-home"@);
    let p3 = opt_arg(a.share_tmp, "--share-tmp"@);
    let p4 = multi_arg(a.dbus_talk@, "--dbus-talk"@);
    let p5 = multi_arg(a.dbus_own@, "--dbus-own"@);
    let p6 = multi_arg(a.pasta_tcp@, "--pasta-tcp"@);
    let p7 = multi_arg(a.pasta_udp@, "--pasta-udp"@);
    let p8 = opt_arg(a.pasta_mac, "--pasta-mac"@);
    let p9 = multi_arg(a.set_env@, "--set-env"@);
    let p10 = multi_arg(a.fwd_env@, "--fwd-env"@);
    let p11 = multi_arg(a.ro_bind@, "--ro-bind"@);
    let p12 = multi_arg(a.rw_bind@, "--rw-bind"@);
    let p13 = multi_arg(a.tmpfs@, "--tmpfs"@);
    let p14 = opt_arg(a.bwrap, "--bwrap"@);
    lemma_opt_arg_equals(a.persist_home, "--persist-home"@);
    lemma_opt_arg_equals(a.share_tmp, "--share-tmp"@);
    lemma_multi_arg_equals(a.dbus_talk@, "--dbus-talk"@);
    lemma_multi_arg_equals(a.dbus_own@, "--dbus-own"@);
    lemma_multi_arg_equals(a.pasta_tcp@, "--pasta-tcp"@);
    lemma_multi_arg_equals(a.pasta_udp@, "--pasta-udp"@);
    lemma_opt_arg_equals(a.pasta_mac, "--pasta-mac"@);
    lemma_multi_arg_equals(a.set_env@, "--set-env"@);
    lemma_multi_arg_equals(a.fwd_env@, "--fwd-env"@);
    lemma_multi_arg_equals(a.ro_bind@, "--ro-bind"@);
    lemma_multi_arg_equals(a.rw_bind@, "--rw-bind"@);
    lemma_multi_arg_equals(a.tmpfs@, "--tmpfs"@);
    lemma_opt_arg_equals(a.bwrap, "--bwrap"@);
    lemma_all_have_equals_concat(k1, p2);
    let k2 = k1 + p2;
    lemma_all_have_equals_concat(k2, p3);
    let k3 = k2 + p3;
    lemma_all_have_equals_concat(k3, p4);
    let k4 = k3 + p4;
    lemma_all_have_equals_concat(k4, p5);
    let k5 = k4 + p5;
    lemma_all_have_equals_concat(k5, p6);
    let k6 = k5 + p6;
    lemma_all_have_equals_concat(k6, p7);
    let k7 = k6 + p7;
    lemma_all_have_equals_concat(k7, p8);
    let k8 = k7 + p8;
    lemma_all_have_equals_concat(k8, p9);
    let k9 = k8 + p9;
    lemma_all_have_equals_concat(k9, p10);
    let k10 = k9 + p10;
    lemma_all_have_equals_concat(k10, p11);
    let k11 = k10 + p11;
    lemma_all_have_equals_concat(k11, p12);
    let k12 = k11 + p12;
    lemma_all_have_equals_concat(k12, p13);
    let k13 = k12 + p13;
    lemma_all_have_equals_concat(k13, p14);
}

/// The flag part holds `x` exactly when `x` is the name of a set flag.
proof fn lemma_flag_args_contain(a: SandboxArgs, x: Seq<char>)
    ensures
        flag_args(a).contains(x) <==> {
            ||| a.gui && x == "--gui"@
            ||| a.audio && x == "--audio"@
            ||| a.network && x == "--network"@
            ||| a.pasta && x == "--pasta"@
            ||| a.gpu && x == "--gpu"@
            ||| a.wayland && x == "--wayland"@
            ||| a.pulse && x == "--pulse"@
            ||| a.pipewire && x == "--pipewire"@
            ||| a.camera && x == "--camera"@
            ||| a.new_session && x == "--new-session"@
            ||| a.keep_env && x == "--keep-env"@
        },
{
    let e = Seq::<Seq<char>>::empty();
    lemma_contains_flag(e, a.gui, "--gui"@, x);
    assert(e + flag_arg(a.gui, "--gui"@) =~= flag_arg(a.gui, "--gui"@));
    let f1 = flag_arg(a.gui, "--gui"@);
    lemma_contains_flag(f1, a.audio, "--audio"@, x);
    let f2 = f1 + flag_arg(a.audio, "--audio"@);
    lemma_contains_flag(f2, a.network, "--network"@, x);
    let f3 = f2 + flag_arg(a.network, "--network"@);
    lemma_contains_flag(f3, a.pasta, "--pasta"@, x);
    let f4 = f3 + flag_arg(a.pasta, "--pasta"@);
    lemma_contains_flag(f4, a.gpu, "--gpu"@, x);
    let f5 = f4 + flag_arg(a.gpu, "--gpu"@);
    lemma_contains_flag(f5, a.wayland, "--wayland"@, x);
    let f6 = f5 + flag_arg(a.wayland, "--wayland"@);
    lemma_contains_flag(f6, a.pulse, "--pulse"@, x);
    let f7 = f6 + flag_arg(a.pulse, "--pulse"@);
    lemma_contains_flag(f7, a.pipewire, "--pipewire"@, x);
    let f8 = f7 + flag_arg(a.pipewire, "--pipewire"@);
    lemma_contains_flag(f8, a.camera, "--camera"@, x);
    let f9 = f8 + flag_arg(a.camera, "--camera"@);
    lemma_contains_flag(f9, a.new_session, "--new-session"@, x);
    let f10 = f9 + flag_arg(a.new_session, "--new-session"@);
    lemma_contains_flag(f10, a.keep_env, "--keep-env"@, x);
}

/// The flag names hold no `=` and are all different.
proof fn lemma_flag_names()
    ensures
        !has_equals("--gui"@) && !has_equals("--audio"@) && !has_equals("--network"@) && !has_equals(
            "--pasta"@,
        ) && !has_equals("--gpu"@) && !has_equals("--wayland"@) && !has_equals("--pulse"@) && !has_equals(
            "--pipewire"@,
        ) && !has_equals("--camera"@) && !has_equals("--new-session"@) && !has_equals("--keep-env"@),
        "--gui"@ != "--gpu"@,
        "--audio"@ != "--pasta"@ && "--audio"@ != "--pulse"@ && "--pasta"@ != "--pulse"@,
        "--network"@ != "--wayland"@,
        "--pipewire"@ != "--keep-env"@,
        "--gui"@.len() == 5 && "--gpu"@.len() == 5 && "--audio"@.len() == 7 && "--pasta"@.len() == 7
            && "--pulse"@.len() == 7 && "--network"@.len() == 9 && "--wayland"@.len() == 9
            && "--pipewire"@.len() == 10 && "--keep-env"@.len() == 10 && "--camera"@.len() == 8
            && "--new-session"@.len() == 13,
{
    reveal_strlit("--gui");
    reveal_strlit("--audio");
    reveal_strlit("--network");
    reveal_strlit("--pasta");
    reveal_strlit("--gpu");
    reveal_strlit("--wayland");
    reveal_strlit("--pulse");
    reveal_strlit("--pipewire");
    reveal_strlit("--camera");
    reveal_strlit("--new-session");
    reveal_strlit("--keep-env");
    assert("--gui"@[3] != "--gpu"@[3]);
    assert("--audio"@[2] != "--pasta"@[2]);
    assert("--audio"@[2] != "--pulse"@[2]);
    assert("--pasta"@[3] != "--pulse"@[3]);
    assert("--network"@[2] != "--wayland"@[2]);
    assert("--pipewire"@[2] != "--keep-env"@[2]);
}

/// The flags written back for a wrapper script round-trip: each boolean
/// flag is set exactly when its `--name` is among the rendered arguments.
pub proof fn lemma_cli_flags_round_trip(a: SandboxArgs)
    ensures
        a.gui <==> a.cli_args().contains("--gui"@),
        a.audio <==> a.cli_args().contains("--audio"@),
        a.network <==> a.cli_args().contains("--network"@),
        a.pasta <==> a.cli_args().contains("--pasta"@),
        a.gpu <==> a.cli_args().contains("--gpu"@),
        a.wayland <==> a.cli_args().contains("--wayland"@),
        a.pulse <==> a.cli_args().contains("--pulse"@),
        a.pipewire <==> a.cli_args().contains("--pipewire"@),
        a.camera <==> a.cli_args().contains("--camera"@),
        a.new_session <==> a.cli_args().contains("--new-session"@),
        a.keep_env <==> a.cli_args().contains("--keep-env"@),
{
    lemma_round_trip_gui(a);
    lemma_round_trip_audio(a);
    lemma_round_trip_network(a);
    lemma_round_trip_pasta(a);
    lemma_round_trip_gpu(a);
    lemma_round_trip_wayland(a);
    lemma_round_trip_pulse(a);
    lemma_round_trip_pipewire(a);
    lemma_round_trip_camera(a);
    lemma_round_trip_new_session(a);
    lemma_round_trip_keep_env(a);
}

proof fn lemma_round_trip_gui(a: SandboxArgs)
    ensures
        a.gui <==> a.cli_args().contains("--gui"@),
{
    lemma_flag_names();
    lemma_flag_args_contain(a, "--gui"@);
    lemma_flag_round_trip_one(a, "--gui"@);
}

proof fn lemma_round_trip_audio(a: SandboxArgs)
    ensures
        a.audio <==> a.cli_args().contains("--audio"@),
{
    lemma_flag_names();
    lemma_flag_args_contain(a, "--audio"@);
    lemma_flag_round_trip_one(a, "--audio"@);
}

proof fn lemma_round_trip_network(a: SandboxArgs)
    ensures
        a.network <==> a.cli_args().contains("--network"@),
{
    lemma_flag_names();
    lemma_flag_args_contain(a, "--network"@);
    lemma_flag_round_trip_one(a, "--network"@);
}

proof fn lemma_round_trip_pasta(a: SandboxArgs)
    ensures
        a.pasta <==> a.cli_args().contains("--pasta"@),
{
    lemma_flag_names();
    lemma_flag_args_contain(a, "--pasta"@);
    lemma_flag_round_trip_one(a, "--pasta"@);
}

proof fn lemma_round_trip_gpu(a: SandboxArgs)
    ensures
        a.gpu <==> a.cli_args().contains("--gpu"@),
{
    lemma_flag_names();
    lemma_flag_args_contain(a, "--gpu"@);
    lemma_flag_round_trip_one(a, "--gpu"@);
}

proof fn lemma_round_trip_wayland(a: SandboxArgs)
    ensures
        a.wayland <==> a.cli_args().contains("--wayland"@),
{
    lemma_flag_names();
    lemma_flag_args_contain(a, "--wayland"@);
    lemma_flag_round_trip_one(a, "--wayland"@);
}

proof fn lemma_round_trip_pulse(a: SandboxArgs)
    ensures
        a.pulse <==> a.cli_args().contains("--pulse"@),
{
    lemma_flag_names();
    lemma_flag_args_contain(a, "--pulse"@);
    lemma_flag_round_trip_one(a, "--pulse"@);
}

proof fn lemma_round_trip_pipewire(a: SandboxArgs)
    ensures
        a.pipewire <==> a.cli_args().contains("--pipewire"@),
{
    lemma_flag_names();
    lemma_flag_args_contain(a, "--pipewire"@);
    lemma_flag_round_trip_one(a, "--pipewire"@);
}

proof fn lemma_round_trip_camera(a: SandboxArgs)
    ensures
        a.camera <==> a.cli_args().contains("--camera"@),
{
    lemma_flag_names();
    lemma_flag_args_contain(a, "--camera"@);
    lemma_flag_round_trip_one(a, "--camera"@);
}

proof fn lemma_round_trip_new_session(a: SandboxArgs)
    ensures
        a.new_session <==> a.cli_args().contains("--new-session"@),
{
    lemma_flag_names();
    lemma_flag_args_contain(a, "--new-session"@);
    lemma_flag_round_trip_one(a, "--new-session"@);
}

proof fn lemma_round_trip_keep_env(a: SandboxArgs)
    ensures
        a.keep_env <==> a.cli_args().contains("--keep-env"@),
{
    lemma_flag_names();
    lemma_flag_args_contain(a, "--keep-env"@);
    lemma_flag_round_trip_one(a, "--keep-env"@);
}

/// A name without `=` is among the rendered arguments exactly when it is
/// among the flags.
proof fn lemma_flag_round_trip_one(a: SandboxArgs, x: Seq<char>)
    requires
        !has_equals(x),
    ensures
        a.cli_args().contains(x) <==> flag_args(a).contains(x),
{
    lemma_cli_split(a);
    lemma_valued_args_equals(a);
    lemma_contains_concat(flag_args(a), valued_args(a), x);
    if valued_args(a).contains(x) {
        let i = choose|i: int| 0 <= i < valued_args(a).len() && valued_args(a)[i] == x;
        assert(has_equals(valued_args(a)[i]));
    }
}

/// Concatenation is associative.
proof fn lemma_concat_assoc(x: Seq<Seq<char>>, y: Seq<Seq<char>>, z: Seq<Seq<char>>)
    ensures
        (x + y) + z == x + (y + z),
{
    assert((x + y) + z =~= x + (y + z));
}

/// The rendered arguments are the flags, then the `name=value` arguments.
#[verifier::rlimit(40)]
proof fn lemma_cli_split(a: SandboxArgs)
    ensures
        a.cli_args() == flag_args(a) + valued_args(a),
{
    let f = flag_args(a);
    let v1 = seq![keyed("--hostname"@, a.hostname@)];
    let c1 = f + v1;
    let p2 = opt_arg(a.persist_home, "--persist-home"@);
    lemma_concat_assoc(f, v1, p2);
    let v2 = v1 + p2;
    let c2 = c1 + p2;
    assert(c2 == f + v2);
    let p3 = opt_arg(a.share_tmp, "--share-tmp"@);
    lemma_concat_assoc(f, v2, p3);
    let v3 = v2 + p3;
    let c3 = c2 + p3;
    assert(c3 == f + v3);
    let p4 = multi_arg(a.dbus_talk@, "--dbus-talk"@);
    lemma_concat_assoc(f, v3, p4);
    let v4 = v3 + p4;
    let c4 = c3 + p4;
    assert(c4 == f + v4);
    let p5 = multi_arg(a.dbus_own@, "--dbus-own"@);
    lemma_concat_assoc(f, v4, p5);
    let v5 = v4 + p5;
    let c5 = c4 + p5;
    assert(c5 == f + v5);
    let p6 = multi_arg(a.pasta_tcp@, "--pasta-tcp"@);
    lemma_concat_assoc(f, v5, p6);
    let v6 = v5 + p6;
    let c6 = c5 + p6;
    assert(c6 == f + v6);
    let p7 = multi_arg(a.pasta_udp@, "--pasta-udp"@);
    lemma_concat_assoc(f, v6, p7);
    let v7 = v6 + p7;
    let c7 = c6 + p7;
    assert(c7 == f + v7);
    let p8 = opt_arg(a.pasta_mac, "--pasta-mac"@);
    lemma_concat_assoc(f, v7, p8);
    let v8 = v7 + p8;
    let c8 = c7 + p8;
    assert(c8 == f + v8);
    let p9 = multi_arg(a.set_env@, "--set-env"@);
    lemma_concat_assoc(f, v8, p9);
    let v9 = v8 + p9;
    let c9 = c8 + p9;
    assert(c9 == f + v9);
    let p10 = multi_arg(a.fwd_env@, "--fwd-env"@);
    lemma_concat_assoc(f, v9, p10);
    let v10 = v9 + p10;
    let c10 = c9 + p10;
    assert(c10 == f + v10);
    let p11 = multi_arg(a.ro_bind@, "--ro-bind"@);
    lemma_concat_assoc(f, v10, p11);
    let v11 = v10 + p11;
    let c11 = c10 + p11;
    assert(c11 == f + v11);
    let p12 = multi_arg(a.rw_bind@, "--rw-bind"@);
    lemma_concat_assoc(f, v11, p12);
    let v12 = v11 + p12;
    let c12 = c11 + p12;
    assert(c12 == f + v12);
    let p13 = multi_arg(a.tmpfs@, "--tmpfs"@);
    lemma_concat_assoc(f, v12, p13);
    let v13 = v12 + p13;
    let c13 = c12 + p13;
    assert(c13 == f + v13);
    let p14 = opt_arg(a.bwrap, "--bwrap"@);
    lemma_concat_assoc(f, v13, p14);
    let v14 = v13 + p14;
    let c14 = c13 + p14;
    assert(c14 == f + v14);
    assert(a.cli_args() == c14);
    assert(valued_args(a) == v14);
}

} // verus!
