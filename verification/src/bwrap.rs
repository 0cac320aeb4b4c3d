//! The bubblewrap invocation: what the sandbox runtime asks of the host,
//! the files it hands to bwrap, the helper processes' command lines, and
//! the full bwrap argument vector built from the flags and the host.
use vstd::prelude::*;
use vstd::utf8::{valid_utf8, decode_utf8};
use crate::lcs::views;
use crate::sandbox::SandboxArgs;
use crate::text::{
    string_from, concat2, concat3, signed_decimal, i32_string, decimal, decimal_string, chars_of, slice_chars,
    find_char, find_char_in, is_whitespace, leading_ws, is_ascii_digit, ascii_digit, starts_with,
};

verus! {

// ---------------------------------------------------------------------------
// The argument builder
// ---------------------------------------------------------------------------

/// bwrap arguments under construction.
pub struct BwrapArgs(pub Vec<String>);

impl View for BwrapArgs {
    type V = Seq<Seq<char>>;

    open spec fn view(&self) -> Seq<Seq<char>> {
        views(self.0@)
    }
}

/// An option with two operands.
pub open spec fn opt2(opt: Seq<char>, a: Seq<char>, b: Seq<char>) -> Seq<Seq<char>> {
    seq![opt, a, b]
}

/// An option with one operand.
pub open spec fn opt1(opt: Seq<char>, a: Seq<char>) -> Seq<Seq<char>> {
    seq![opt, a]
}

impl BwrapArgs {
    pub fn new() -> (b: Self)
        ensures
            b@ == Seq::<Seq<char>>::empty(),
    {
        let b = BwrapArgs(Vec::new());
        assert(b@ =~= Seq::<Seq<char>>::empty());
        b
    }

    pub fn push(&mut self, s: String)
        ensures
            final(self)@ == old(self)@.push(s@),
    {
        let ghost before = self@;
        self.0.push(s);
        assert(self@ =~= before.push(s@));
    }

    pub fn flag(&mut self, f: &str)
        ensures
            final(self)@ == old(self)@.push(f@),
    {
        self.push(string_from(f));
    }

    pub fn option2(&mut self, opt: &str, a: &str, b: &str)
        ensures
            final(self)@ == old(self)@ + opt2(opt@, a@, b@),
    {
        let ghost before = self@;
        self.flag(opt);
        self.flag(a);
        self.flag(b);
        assert(self@ =~= before + opt2(opt@, a@, b@));
    }

    pub fn option1(&mut self, opt: &str, a: &str)
        ensures
            final(self)@ == old(self)@ + opt1(opt@, a@),
    {
        let ghost before = self@;
        self.flag(opt);
        self.flag(a);
        assert(self@ =~= before + opt1(opt@, a@));
    }

    pub fn ro_bind(&mut self, src: &str, dst: &str)
        ensures
            final(self)@ == old(self)@ + opt2("--ro-bind"@, src@, dst@),
    {
        self.option2("--ro-bind", src, dst);
    }

    pub fn ro_bind_try(&mut self, src: &str, dst: &str)
        ensures
            final(self)@ == old(self)@ + opt2("--ro-bind-try"@, src@, dst@),
    {
        self.option2("--ro-bind-try", src, dst);
    }

    pub fn bind(&mut self, src: &str, dst: &str)
        ensures
            final(self)@ == old(self)@ + opt2("--bind"@, src@, dst@),
    {
        self.option2("--bind", src, dst);
    }

    pub fn bind_try(&mut self, src: &str, dst: &str)
        ensures
            final(self)@ == old(self)@ + opt2("--bind-try"@, src@, dst@),
    {
        self.option2("--bind-try", src, dst);
    }

    pub fn dev_bind(&mut self, src: &str, dst: &str)
        ensures
            final(self)@ == old(self)@ + opt2("--dev-bind"@, src@, dst@),
    {
        self.option2("--dev-bind", src, dst);
    }

    pub fn proc(&mut self, dst: &str)
        ensures
            final(self)@ == old(self)@ + opt1("--proc"@, dst@),
    {
        self.option1("--proc", dst);
    }

    pub fn dev(&mut self, dst: &str)
        ensures
            final(self)@ == old(self)@ + opt1("--dev"@, dst@),
    {
        self.option1("--dev", dst);
    }

    pub fn dir(&mut self, dst: &str)
        ensures
            final(self)@ == old(self)@ + opt1("--dir"@, dst@),
    {
        self.option1("--dir", dst);
    }

    pub fn tmpfs(&mut self, dst: &str)
        ensures
            final(self)@ == old(self)@ + opt1("--tmpfs"@, dst@),
    {
        self.option1("--tmpfs", dst);
    }

    pub fn file(&mut self, fd: i32, dst: &str)
        ensures
            final(self)@ == old(self)@ + opt2("--file"@, signed_decimal(fd as int), dst@),
    {
        let n = i32_string(fd);
        self.option2("--file", n.as_str(), dst);
    }

    pub fn setenv(&mut self, key: &str, val: &str)
        ensures
            final(self)@ == old(self)@ + opt2("--setenv"@, key@, val@),
    {
        self.option2("--setenv", key, val);
    }

    pub fn hostname(&mut self, name: &str)
        ensures
            final(self)@ == old(self)@ + opt1("--hostname"@, name@),
    {
        self.option1("--hostname", name);
    }

    pub fn clearenv(&mut self)
        ensures
            final(self)@ == old(self)@.push("--clearenv"@),
    {
        self.flag("--clearenv");
    }

    pub fn unshare_all(&mut self)
        ensures
            final(self)@ == old(self)@.push("--unshare-all"@),
    {
        self.flag("--unshare-all");
    }

    pub fn share_net(&mut self)
        ensures
            final(self)@ == old(self)@.push("--share-net"@),
    {
        self.flag("--share-net");
    }

    pub fn die_with_parent(&mut self)
        ensures
            final(self)@ == old(self)@.push("--die-with-parent"@),
    {
        self.flag("--die-with-parent");
    }

    pub fn new_session(&mut self)
        ensures
            final(self)@ == old(self)@.push("--new-session"@),
    {
        self.flag("--new-session");
    }

    /// The finished arguments, followed by `--`, the executable and its
    /// arguments.
    pub fn exec(self, exe: &str, args: &Vec<String>) -> (out: Vec<String>)
        ensures
            views(out@) == self@ + seq!["--"@, exe@] + views(args@),
    {
        let mut b = self;
        let ghost start = b@;
        b.flag("--");
        b.flag(exe);
        let mut k: usize = 0;
        while k < args.len()
            invariant
                k <= args.len(),
                b@ == start + seq!["--"@, exe@] + views(args@).take(k as int),
            decreases args.len() - k,
        {
            b.push(args[k].clone());
            k += 1;
            assert(views(args@).take(k as int) =~= views(args@).take(k - 1).push(args@[k - 1]@));
            assert(b@ =~= start + seq!["--"@, exe@] + views(args@).take(k as int));
        }
        assert(views(args@).take(args.len() as int) =~= views(args@));
        b.0
    }
}

// ---------------------------------------------------------------------------
// Helper processes and identity files
// ---------------------------------------------------------------------------

/// `prefix` followed by each of `vs`, as separate arguments.
pub open spec fn prefixed_each(prefix: Seq<char>, vs: Seq<String>) -> Seq<Seq<char>>
    decreases vs.len(),
{
    if vs.len() == 0 {
        seq![]
    } else {
        prefixed_each(prefix, vs.drop_last()).push(prefix + vs.last()@)
    }
}

/// `opt` then `v` for each `v` of `vs`.
pub open spec fn repeated_opt(opt: Seq<char>, vs: Seq<String>) -> Seq<Seq<char>>
    decreases vs.len(),
{
    if vs.len() == 0 {
        seq![]
    } else {
        repeated_opt(opt, vs.drop_last()) + seq![opt, vs.last()@]
    }
}

fn push_prefixed_each(out: &mut Vec<String>, prefix: &str, vs: &Vec<String>)
    ensures
        views(final(out)@) == views(old(out)@) + prefixed_each(prefix@, vs@),
{
    let ghost start = views(out@);
    let mut k: usize = 0;
    assert(vs@.take(0) =~= Seq::<String>::empty());
    assert(start + prefixed_each(prefix@, vs@.take(0)) =~= start);
    while k < vs.len()
        invariant
            k <= vs.len(),
            views(out@) == start + prefixed_each(prefix@, vs@.take(k as int)),
        decreases vs.len() - k,
    {
        let ghost before = views(out@);
        out.push(concat2(prefix, vs[k].as_str()));
        assert(vs@.take(k + 1).drop_last() =~= vs@.take(k as int));
        assert(views(out@) =~= before.push(prefix@ + vs@[k as int]@));
        k += 1;
    }
    assert(vs@.take(vs.len() as int) =~= vs@);
}

fn push_repeated_opt(out: &mut Vec<String>, opt: &str, vs: &Vec<String>)
    ensures
        views(final(out)@) == views(old(out)@) + repeated_opt(opt@, vs@),
{
    let ghost start = views(out@);
    let mut k: usize = 0;
    assert(vs@.take(0) =~= Seq::<String>::empty());
    assert(start + repeated_opt(opt@, vs@.take(0)) =~= start);
    while k < vs.len()
        invariant
            k <= vs.len(),
            views(out@) == start + repeated_opt(opt@, vs@.take(k as int)),
        decreases vs.len() - k,
    {
        let ghost before = views(out@);
        out.push(string_from(opt));
        out.push(vs[k].clone());
        assert(vs@.take(k + 1).drop_last() =~= vs@.take(k as int));
        assert(views(out@) =~= before + seq![opt@, vs@[k as int]@]);
        k += 1;
    }
    assert(vs@.take(vs.len() as int) =~= vs@);
}

/// Where the DBus proxy listens, under the runtime directory.
pub open spec fn dbus_socket_path(runtime: Seq<char>) -> Seq<char> {
    runtime + "/bubblewand-dbus.sock"@
}

/// The socket path of the DBus proxy for a runtime directory.
pub fn dbus_socket(runtime: &str) -> (s: String)
    ensures
        s@ == dbus_socket_path(runtime@),
{
    concat2(runtime, "/bubblewand-dbus.sock")
}

/// The arguments of `xdg-dbus-proxy`: the bus address, the socket to
/// listen on, filtering, the readiness fd, and the names to talk to and
/// to own.
pub open spec fn dbus_proxy_argv(
    addr: Seq<char>,
    socket: Seq<char>,
    fd: int,
    talk: Seq<String>,
    own: Seq<String>,
) -> Seq<Seq<char>> {
    seq![addr, socket, "--filter"@, "--fd="@ + signed_decimal(fd)] + prefixed_each("--talk="@, talk)
        + prefixed_each("--own="@, own)
}

/// The arguments of `xdg-dbus-proxy`.
pub fn dbus_proxy_args(addr: &str, socket: &str, proxy_fd: i32, talk: &Vec<String>, own: &Vec<String>) -> (out: Vec<String>)
    ensures
        views(out@) == dbus_proxy_argv(addr@, socket@, proxy_fd as int, talk@, own@),
{
    let mut out: Vec<String> = Vec::new();
    out.push(string_from(addr));
    out.push(string_from(socket));
    out.push(string_from("--filter"));
    let fd = i32_string(proxy_fd);
    out.push(concat2("--fd=", fd.as_str()));
    assert(views(out@) =~= seq![addr@, socket@, "--filter"@, "--fd="@ + signed_decimal(proxy_fd as int)]);
    push_prefixed_each(&mut out, "--talk=", talk);
    push_prefixed_each(&mut out, "--own=", own);
    out
}

/// The arguments of `pasta`: attach to the sandbox's user and network
/// namespaces by PID, configure the network, map host loopback to the
/// namespace loopback, never forward from the namespace to the host, and
/// forward the given TCP and UDP specs (or none).
pub open spec fn pasta_argv(pid: nat, tcp: Seq<String>, udp: Seq<String>, mac: Option<String>) -> Seq<Seq<char>> {
    seq![
        "--quiet"@,
        "--config-net"@,
        "--host-lo-to-ns-lo"@,
        "-T"@,
        "none"@,
        "-U"@,
        "none"@,
        "--userns"@,
        "/proc/"@ + decimal(pid) + "/ns/user"@,
        "--netns"@,
        "/proc/"@ + decimal(pid) + "/ns/net"@,
    ] + match mac {
        Some(m) => seq!["--ns-mac-addr"@, m@],
        None => seq![],
    } + repeated_opt("-t"@, tcp) + repeated_opt("-u"@, udp) + (if tcp.len() == 0 {
        seq!["-t"@, "none"@]
    } else {
        seq![]
    }) + (if udp.len() == 0 {
        seq!["-u"@, "none"@]
    } else {
        seq![]
    })
}

/// `opt v` for each value: the value at `2j + 1`, its option before it.
proof fn lemma_repeated_opt_at(opt: Seq<char>, vs: Seq<String>, j: int)
    requires
        0 <= j < vs.len(),
    ensures
        repeated_opt(opt, vs).len() == 2 * vs.len(),
        repeated_opt(opt, vs)[2 * j] == opt,
        repeated_opt(opt, vs)[2 * j + 1] == vs[j]@,
    decreases vs.len(),
{
    lemma_repeated_opt_len(opt, vs.drop_last());
    if j < vs.len() - 1 {
        lemma_repeated_opt_at(opt, vs.drop_last(), j);
    }
}

proof fn lemma_repeated_opt_len(opt: Seq<char>, vs: Seq<String>)
    ensures
        repeated_opt(opt, vs).len() == 2 * vs.len(),
    decreases vs.len(),
{
    if vs.len() > 0 {
        lemma_repeated_opt_len(opt, vs.drop_last());
    }
}

/// `s` holds `x` followed directly by `y`.
pub open spec fn has_pair(s: Seq<Seq<char>>, x: Seq<char>, y: Seq<char>) -> bool {
    exists|i: int| 0 <= i && i + 1 < s.len() && #[trigger] s[i] == x && s[i + 1] == y
}

/// Every TCP forwarding spec reaches pasta as `-t SPEC` and every UDP one
/// as `-u SPEC`.
pub proof fn lemma_pasta_forwards(pid: nat, tcp: Seq<String>, udp: Seq<String>, mac: Option<String>)
    ensures
        forall|j: int| 0 <= j < tcp.len() ==> has_pair(pasta_argv(pid, tcp, udp, mac), "-t"@, #[trigger] tcp[j]@),
        forall|j: int| 0 <= j < udp.len() ==> has_pair(pasta_argv(pid, tcp, udp, mac), "-u"@, #[trigger] udp[j]@),
{
    let v = pasta_argv(pid, tcp, udp, mac);
    let head = seq![
        "--quiet"@,
        "--config-net"@,
        "--host-lo-to-ns-lo"@,
        "-T"@,
        "none"@,
        "-U"@,
        "none"@,
        "--userns"@,
        "/proc/"@ + decimal(pid) + "/ns/user"@,
        "--netns"@,
        "/proc/"@ + decimal(pid) + "/ns/net"@,
    ] + mac_argv(mac);
    let t = repeated_opt("-t"@, tcp);
    let u = repeated_opt("-u"@, udp);
    let tail = (if tcp.len() == 0 {
        seq!["-t"@, "none"@]
    } else {
        seq![]
    }) + (if udp.len() == 0 {
        seq!["-u"@, "none"@]
    } else {
        seq![]
    });
    assert(v =~= head + t + u + tail);
    lemma_repeated_opt_len("-t"@, tcp);
    lemma_repeated_opt_len("-u"@, udp);
    assert forall|j: int| 0 <= j < tcp.len() implies has_pair(v, "-t"@, #[trigger] tcp[j]@) by {
        lemma_repeated_opt_at("-t"@, tcp, j);
        let i = head.len() + 2 * j;
        assert(v[i] == t[2 * j] && v[i + 1] == t[2 * j + 1]);
    }
    assert forall|j: int| 0 <= j < udp.len() implies has_pair(v, "-u"@, #[trigger] udp[j]@) by {
        lemma_repeated_opt_at("-u"@, udp, j);
        let i = head.len() + t.len() + 2 * j;
        assert(v[i] == u[2 * j] && v[i + 1] == u[2 * j + 1]);
    }
}

/// Without port-forwarding specs pasta runs outbound-only: its arguments
/// end with `-t none -u none`.
pub proof fn lemma_pasta_outbound_only(pid: nat, mac: Option<String>)
    ensures
        ({
            let v = pasta_argv(pid, seq![], seq![], mac);
            v.subrange(v.len() - 4, v.len() as int) == seq!["-t"@, "none"@, "-u"@, "none"@]
        }),
{
    let v = pasta_argv(pid, seq![], seq![], mac);
    assert(repeated_opt("-t"@, Seq::<String>::empty()) =~= Seq::<Seq<char>>::empty());
    assert(repeated_opt("-u"@, Seq::<String>::empty()) =~= Seq::<Seq<char>>::empty());
    assert(v.subrange(v.len() - 4, v.len() as int) =~= seq!["-t"@, "none"@, "-u"@, "none"@]);
}

/// The MAC address option of `pasta`, when one is given.
pub open spec fn mac_argv(mac: Option<String>) -> Seq<Seq<char>> {
    match mac {
        Some(m) => seq!["--ns-mac-addr"@, m@],
        None => seq![],
    }
}

/// The arguments of `pasta` for the sandbox process `pid`.
pub fn pasta_args(pid: u32, tcp: &Vec<String>, udp: &Vec<String>, mac: &Option<String>) -> (out: Vec<String>)
    ensures
        views(out@) == pasta_argv(pid as nat, tcp@, udp@, *mac),
        forall|j: int| 0 <= j < tcp@.len() ==> has_pair(views(out@), "-t"@, #[trigger] tcp@[j]@),
        forall|j: int| 0 <= j < udp@.len() ==> has_pair(views(out@), "-u"@, #[trigger] udp@[j]@),
{
    proof {
        lemma_pasta_forwards(pid as nat, tcp@, udp@, *mac);
    }
    let p = decimal_string(pid as u64);
    let userns = concat3("/proc/", p.as_str(), "/ns/user");
    let netns = concat3("/proc/", p.as_str(), "/ns/net");
    let mut out: Vec<String> = Vec::new();
    out.push(string_from("--quiet"));
    out.push(string_from("--config-net"));
    out.push(string_from("--host-lo-to-ns-lo"));
    out.push(string_from("-T"));
    out.push(string_from("none"));
    out.push(string_from("-U"));
    out.push(string_from("none"));
    out.push(string_from("--userns"));
    out.push(userns);
    out.push(string_from("--netns"));
    out.push(netns);
    let ghost head = views(out@);
    assert(head =~= seq![
        "--quiet"@,
        "--config-net"@,
        "--host-lo-to-ns-lo"@,
        "-T"@,
        "none"@,
        "-U"@,
        "none"@,
        "--userns"@,
        "/proc/"@ + decimal(pid as nat) + "/ns/user"@,
        "--netns"@,
        "/proc/"@ + decimal(pid as nat) + "/ns/net"@,
    ]);
    let ghost mac_part: Seq<Seq<char>> = mac_argv(*mac);
    match mac {
        Some(m) => {
            out.push(string_from("--ns-mac-addr"));
            out.push(m.clone());
        },
        None => {},
    }
    assert(views(out@) =~= head + mac_part);
    push_repeated_opt(&mut out, "-t", tcp);
    push_repeated_opt(&mut out, "-u", udp);
    let ghost tail = views(out@);
    let ghost t_none: Seq<Seq<char>> = if tcp@.len() == 0 {
        seq!["-t"@, "none"@]
    } else {
        seq![]
    };
    let ghost u_none: Seq<Seq<char>> = if udp@.len() == 0 {
        seq!["-u"@, "none"@]
    } else {
        seq![]
    };
    if tcp.len() == 0 {
        out.push(string_from("-t"));
        out.push(string_from("none"));
    }
    assert(views(out@) =~= tail + t_none);
    let ghost tail2 = views(out@);
    if udp.len() == 0 {
        out.push(string_from("-u"));
        out.push(string_from("none"));
    }
    assert(views(out@) =~= tail2 + u_none);
    assert(views(out@) =~= pasta_argv(pid as nat, tcp@, udp@, *mac));
    out
}

/// The key bwrap writes before the sandbox PID on its info fd.
pub open spec fn child_pid_key() -> Seq<char> {
    "\"child-pid\""@
}

/// Index of the first occurrence of `p` in `s`.
pub open spec fn find_sub(s: Seq<char>, p: Seq<char>) -> Option<int>
    decreases s.len(),
{
    if p.len() > s.len() {
        None
    } else if s.take(p.len() as int) =~= p {
        Some(0)
    } else if s.len() == 0 {
        None
    } else {
        match find_sub(s.drop_first(), p) {
            Some(i) => Some(i + 1),
            None => None,
        }
    }
}

/// Number of leading ASCII digits of `s`.
pub open spec fn leading_digits(s: Seq<char>) -> nat
    decreases s.len(),
{
    if s.len() > 0 && is_ascii_digit(s[0]) {
        1 + leading_digits(s.drop_first())
    } else {
        0
    }
}

/// The value of a string of ASCII decimal digits.
pub open spec fn digits_value(d: Seq<char>) -> nat
    decreases d.len(),
{
    if d.len() == 0 {
        0
    } else {
        digits_value(d.drop_last()) * 10 + (d.last() as nat - '0' as nat) as nat
    }
}

/// Parsing ASCII digits as a `u32`: none when there are no digits or the
/// value does not fit.
pub open spec fn parse_u32(d: Seq<char>) -> Option<u32> {
    if d.len() == 0 || digits_value(d) > u32::MAX {
        None
    } else {
        Some(digits_value(d) as u32)
    }
}

/// The child PID in bwrap's info JSON: after the first `"child-pid"`, past
/// the next `:`, skipping whitespace, the run of ASCII digits.
pub open spec fn child_pid_of(s: Seq<char>) -> Option<u32> {
    match find_sub(s, child_pid_key()) {
        None => None,
        Some(i) => {
            let rest = s.skip(i + child_pid_key().len());
            match find_char(rest, ':') {
                None => None,
                Some(c) => {
                    let tail = rest.skip(c + 1);
                    let t = tail.skip(leading_ws(tail) as int);
                    parse_u32(t.take(leading_digits(t) as int))
                },
            }
        },
    }
}

/// `std::str::from_utf8`: the text when `buf` is valid UTF-8.
#[verifier::external_body]
fn utf8_text(buf: &[u8]) -> (r: Option<String>)
    ensures
        r is Some <==> valid_utf8(buf@),
        r matches Some(s) ==> s@ == decode_utf8(buf@),
{
    match std::str::from_utf8(buf) {
        Ok(s) => Some(s.to_owned()),
        Err(_) => None,
    }
}

/// Whether `p` occurs in `s` at `i`.
fn matches_at(s: &Vec<char>, p: &Vec<char>, i: usize) -> (b: bool)
    requires
        i + p.len() <= s.len(),
    ensures
        b == (s@.skip(i as int).take(p.len() as int) =~= p@),
{
    let mut k: usize = 0;
    while k < p.len()
        invariant
            k <= p.len(),
            i + p.len() <= s.len(),
            forall|j: int| 0 <= j < k ==> s@[i + j] == p@[j],
        decreases p.len() - k,
    {
        if s[i + k] != p[k] {
            assert(s@.skip(i as int).take(p.len() as int)[k as int] != p@[k as int]);
            return false;
        }
        k += 1;
    }
    assert(s@.skip(i as int).take(p.len() as int) =~= p@);
    true
}

/// Finds the first occurrence of `p` in `s`.
fn find_sub_in(s: &Vec<char>, p: &Vec<char>) -> (r: Option<usize>)
    ensures
        match r {
            Some(i) => find_sub(s@, p@) == Some(i as int),
            None => find_sub(s@, p@) is None,
        },
{
    let mut i: usize = 0;
    assert(s@.skip(0) =~= s@);
    loop
        invariant
            i <= s.len(),
            match find_sub(s@, p@) {
                Some(x) => match find_sub(s@.skip(i as int), p@) {
                    Some(y) => x == y + i,
                    None => false,
                },
                None => find_sub(s@.skip(i as int), p@) is None,
            },
        decreases s.len() - i,
    {
        if p.len() > s.len() - i {
            return None;
        }
        if matches_at(s, p, i) {
            return Some(i);
        }
        if i == s.len() {
            assert(s@.skip(i as int).take(p.len() as int) =~= p@);
            return None;
        }
        assert(s@.skip(i as int).drop_first() =~= s@.skip(i + 1));
        i += 1;
    }
}

/// Number of leading whitespace characters of `t`.
fn count_leading_ws(t: &Vec<char>) -> (a: usize)
    ensures
        a == leading_ws(t@),
        a <= t.len(),
{
    let mut a: usize = 0;
    assert(t@.skip(0) =~= t@);
    while a < t.len() && is_whitespace(t[a])
        invariant
            a <= t.len(),
            a + leading_ws(t@.skip(a as int)) == leading_ws(t@),
        decreases t.len() - a,
    {
        assert(t@.skip(a as int).drop_first() =~= t@.skip(a + 1));
        a += 1;
    }
    a
}

proof fn lemma_leading_digits(t: Seq<char>)
    ensures
        leading_digits(t) <= t.len(),
        forall|i: int| 0 <= i < leading_digits(t) ==> #[trigger] is_ascii_digit(t[i]),
    decreases t.len(),
{
    if t.len() > 0 && is_ascii_digit(t[0]) {
        lemma_leading_digits(t.drop_first());
        assert forall|i: int| 0 <= i < leading_digits(t) implies #[trigger] is_ascii_digit(t[i]) by {
            if i > 0 {
                assert(t[i] == t.drop_first()[i - 1]);
            }
        }
    }
}

/// The leading ASCII digits of `t` parsed as a `u32`.
fn parse_leading_digits(t: &Vec<char>) -> (r: Option<u32>)
    ensures
        r == parse_u32(t@.take(leading_digits(t@) as int)),
{
    let ghost n = leading_digits(t@);
    let ghost d = t@.take(n as int);
    proof {
        lemma_leading_digits(t@);
    }
    let mut k: usize = 0;
    let mut acc: u64 = 0;
    assert(t@.skip(0) =~= t@);
    assert(d.take(0) =~= Seq::<char>::empty());
    while k < t.len() && ascii_digit(t[k])
        invariant
            k <= t.len(),
            n == leading_digits(t@),
            d == t@.take(n as int),
            n <= t.len(),
            k + leading_digits(t@.skip(k as int)) == n,
            forall|i: int| 0 <= i < n ==> #[trigger] is_ascii_digit(t@[i]),
            acc == digits_value(d.take(k as int)),
            acc <= u32::MAX,
        decreases t.len() - k,
    {
        assert(t@.skip(k as int).drop_first() =~= t@.skip(k + 1));
        assert(t@.skip(k as int)[0] == t@[k as int]);
        assert(d.take(k + 1).drop_last() =~= d.take(k as int));
        assert(d.take(k + 1).last() == t@[k as int]);
        let digit = (t[k] as u32 - '0' as u32) as u64;
        acc = acc * 10 + digit;
        k += 1;
        if acc > 0xffff_ffff {
            proof {
                assert forall|i: int| 0 <= i < d.len() implies #[trigger] is_ascii_digit(d[i]) by {
                    assert(d[i] == t@[i]);
                }
                lemma_digits_value_grows(d, k as int);
            }
            return None;
        }
    }
    assert(d.take(k as int) =~= d);
    if k == 0 {
        None
    } else {
        Some(acc as u32)
    }
}

/// Parses the child PID out of the text of bwrap's info JSON.
pub fn parse_child_pid_text(s: &str) -> (r: Option<u32>)
    ensures
        r == child_pid_of(s@),
{
    let cs = chars_of(s);
    let key = chars_of("\"child-pid\"");
    proof {
        reveal_strlit("\"child-pid\"");
        lemma_find_sub_fits(cs@, key@);
    }
    let i = match find_sub_in(&cs, &key) {
        Some(i) => i,
        None => {
            return None;
        },
    };
    let rest = slice_chars(&cs, i + key.len(), cs.len());
    assert(rest@ =~= cs@.skip(i + child_pid_key().len()));
    proof {
        lemma_find_char_in_range(rest@, ':');
    }
    let c = match find_char_in(&rest, ':') {
        Some(c) => c,
        None => {
            return None;
        },
    };
    let tail = slice_chars(&rest, c + 1, rest.len());
    assert(tail@ =~= rest@.skip(c + 1));
    let a = count_leading_ws(&tail);
    let t = slice_chars(&tail, a, tail.len());
    assert(t@ =~= tail@.skip(leading_ws(tail@) as int));
    parse_leading_digits(&t)
}

/// A found occurrence lies inside the text.
proof fn lemma_find_sub_fits(s: Seq<char>, p: Seq<char>)
    ensures
        find_sub(s, p) matches Some(i) ==> 0 <= i && i + p.len() <= s.len(),
    decreases s.len(),
{
    if p.len() <= s.len() && !(s.take(p.len() as int) =~= p) && s.len() > 0 {
        lemma_find_sub_fits(s.drop_first(), p);
    }
}

proof fn lemma_find_char_in_range(s: Seq<char>, c: char)
    ensures
        find_char(s, c) matches Some(i) ==> 0 <= i < s.len(),
    decreases s.len(),
{
    if s.len() > 0 && s[0] != c {
        lemma_find_char_in_range(s.drop_first(), c);
    }
}

/// A prefix of a digit string is worth no more than the whole.
pub proof fn lemma_digits_value_prefix(d: Seq<char>, k: int)
    requires
        0 <= k <= d.len(),
        forall|i: int| 0 <= i < d.len() ==> #[trigger] is_ascii_digit(d[i]),
    ensures
        digits_value(d.take(k)) <= digits_value(d),
{
    lemma_digits_value_grows(d, k);
}

/// A prefix of a digit string is worth no more than the whole.
proof fn lemma_digits_value_grows(d: Seq<char>, k: int)
    requires
        0 <= k <= d.len(),
        forall|i: int| 0 <= i < d.len() ==> #[trigger] is_ascii_digit(d[i]),
    ensures
        digits_value(d.take(k)) <= digits_value(d),
    decreases d.len(),
{
    if k < d.len() {
        assert(d.drop_last().take(k) =~= d.take(k));
        assert forall|i: int| 0 <= i < d.drop_last().len() implies #[trigger] is_ascii_digit(
            d.drop_last()[i],
        ) by {
            assert(d.drop_last()[i] == d[i]);
        }
        lemma_digits_value_grows(d.drop_last(), k);
    } else {
        assert(d.take(k) =~= d);
    }
}

/// Parses the child PID out of bwrap's info JSON, which must be valid
/// UTF-8 so far.
pub fn parse_child_pid(buf: &[u8]) -> (r: Option<u32>)
    ensures
        r == (if valid_utf8(buf@) {
            child_pid_of(decode_utf8(buf@))
        } else {
            None
        }),
{
    match utf8_text(buf) {
        Some(s) => parse_child_pid_text(s.as_str()),
        None => None,
    }
}

} // verus!
