//! Naming transient systemd scopes and slices: escaping unit names,
//! deriving the target slice from the parent slice, finding the parent
//! slice in a cgroup path, and the `systemd-run` command line.
use vstd::prelude::*;
use crate::lcs::views;
use crate::text::{
    chars_of, string_of, string_from, concat2, push_str, push_chars, split_on, split_chars, seqs_of,
    join, has_prefix, has_suffix, starts_with, ends_with, slice_chars, ascii_alphanumeric,
    is_ascii_alphanumeric, decimal, decimal_string,
};

verus! {

/// A character kept as-is in a unit name.
pub open spec fn unit_char_ok(c: char) -> bool {
    is_ascii_alphanumeric(c) || c == '_' || c == '.'
}

/// `s` with every character other than ASCII letters, digits, `_` and `.`
/// replaced by `-`.
pub open spec fn escaped_unit(s: Seq<char>) -> Seq<char> {
    s.map_values(|c: char| if unit_char_ok(c) { c } else { '-' })
}

/// Escapes `s` for use in a unit name.
pub fn unit_escape(s: &str) -> (out: String)
    ensures
        out@ == escaped_unit(s@),
{
    let cs = chars_of(s);
    let mut out: Vec<char> = Vec::new();
    let mut k: usize = 0;
    while k < cs.len()
        invariant
            k <= cs.len(),
            out@ == escaped_unit(cs@.take(k as int)),
        decreases cs.len() - k,
    {
        let c = cs[k];
        if ascii_alphanumeric(c) || c == '_' || c == '.' {
            out.push(c);
        } else {
            out.push('-');
        }
        k += 1;
        assert(out@ =~= escaped_unit(cs@.take(k as int)));
    }
    assert(cs@.take(cs.len() as int) =~= cs@);
    string_of(&out)
}

/// `s` with every trailing repetition of `pat` removed
/// (`str::trim_end_matches`).
pub open spec fn trim_end_all(s: Seq<char>, pat: Seq<char>) -> Seq<char>
    decreases s.len(),
{
    if pat.len() > 0 && has_suffix(s, pat) {
        trim_end_all(s.take(s.len() - pat.len()), pat)
    } else {
        s
    }
}

/// Removes every trailing repetition of `pat` from `s`.
pub fn trim_end_matches(s: &Vec<char>, pat: &Vec<char>) -> (out: Vec<char>)
    ensures
        out@ == trim_end_all(s@, pat@),
{
    let mut cur = s.clone();
    assert(cur@ == s@);
    while pat.len() > 0 && ends_with(&cur, pat)
        invariant
            trim_end_all(cur@, pat@) == trim_end_all(s@, pat@),
        decreases cur.len(),
    {
        cur = slice_chars(&cur, 0, cur.len() - pat.len());
        assert(cur@ =~= cur@.take(cur@.len() as int));
    }
    cur
}

/// The slice-name form of each `/`-separated component, joined with `-`.
pub open spec fn slice_base(parent: Seq<char>) -> Seq<char> {
    join(split_on(parent, '/').map_values(|p: Seq<char>| trim_end_all(p, ".slice"@)), "-"@)
}

/// The target slice: slice unit names use `-` as the hierarchy separator,
/// so a child of `session-3.slice` named `apps` is `session-3-apps.slice`.
pub open spec fn target_slice(parent: Seq<char>, child: Seq<char>) -> Seq<char> {
    let child_base = trim_end_all(child, ".slice"@);
    if parent.len() == 0 {
        child_base + ".slice"@
    } else {
        slice_base(parent) + "-"@ + child_base + ".slice"@
    }
}

/// Builds the target slice name for `child` under `parent`.
pub fn build_target_slice(parent: &str, child: &str) -> (out: String)
    ensures
        out@ == target_slice(parent@, child@),
{
    let suffix = chars_of(".slice");
    let cc = chars_of(child);
    let child_base = trim_end_matches(&cc, &suffix);
    let pc = chars_of(parent);
    if pc.len() == 0 {
        let mut out = string_of(&child_base);
        push_str(&mut out, ".slice");
        return out;
    }
    let parts = split_chars(&pc, '/');
    let ghost ps = seqs_of(parts@);
    let mut trimmed: Vec<String> = Vec::new();
    let mut k: usize = 0;
    let ghost f = |p: Seq<char>| trim_end_all(p, ".slice"@);
    while k < parts.len()
        invariant
            k <= parts.len(),
            ps == seqs_of(parts@),
            suffix@ == ".slice"@,
            f == (|p: Seq<char>| trim_end_all(p, ".slice"@)),
            views(trimmed@) == ps.take(k as int).map_values(f),
        decreases parts.len() - k,
    {
        let t = trim_end_matches(&parts[k], &suffix);
        let ghost o0 = views(trimmed@);
        trimmed.push(string_of(&t));
        assert(views(trimmed@) =~= o0.push(f(ps[k as int])));
        assert(ps.take(k + 1).map_values(f) =~= ps.take(k as int).map_values(f).push(f(ps[k as int])));
        k += 1;
    }
    assert(ps.take(parts.len() as int) =~= ps);
    let mut out = crate::text::join_strings(&trimmed, "-");
    push_str(&mut out, "-");
    push_chars(&mut out, &child_base);
    push_str(&mut out, ".slice");
    out
}

/// `s` without its leading `c` characters (`str::trim_start_matches`).
pub open spec fn trim_start_char(s: Seq<char>, c: char) -> Seq<char>
    decreases s.len(),
{
    if s.len() > 0 && s[0] == c {
        trim_start_char(s.drop_first(), c)
    } else {
        s
    }
}

/// A component naming the user manager: `user@NNN.service`.
pub open spec fn is_user_manager(p: Seq<char>) -> bool {
    has_prefix(p, "user@"@) && has_suffix(p, ".service"@)
}

/// Index of the first user-manager component.
pub open spec fn first_user_manager(parts: Seq<Seq<char>>) -> Option<int>
    decreases parts.len(),
{
    if parts.len() == 0 {
        None
    } else if is_user_manager(parts[0]) {
        Some(0)
    } else {
        match first_user_manager(parts.drop_first()) {
            Some(i) => Some(i + 1),
            None => None,
        }
    }
}

/// Length of the first `n` components, each with its separator.
pub open spec fn components_len(parts: Seq<Seq<char>>, n: int) -> int
    decreases n,
{
    if n <= 0 {
        0
    } else {
        components_len(parts, n - 1) + parts[n - 1].len() + 1
    }
}

/// The cgroup path relative to the user manager, or empty when it is not
/// under one.
pub open spec fn user_relative(path: Seq<char>) -> Seq<char> {
    let p = trim_start_char(path, '/');
    let parts = split_on(p, '/');
    match first_user_manager(parts) {
        Some(i) => {
            p.skip(min_int(components_len(parts, i + 1), p.len() as int))
        },
        None => seq![],
    }
}

/// The immediate parent unit of the cgroup path: the second-to-last
/// component relative to the user manager, or empty.
pub open spec fn parent_slice(path: Seq<char>) -> Seq<char> {
    let ps = split_on(user_relative(path), '/');
    if ps.len() >= 2 {
        ps[ps.len() - 2]
    } else {
        seq![]
    }
}

/// The parent slice of a process's cgroup path.
pub fn parent_slice_from_cgroup(path: &str) -> (out: String)
    ensures
        out@ == parent_slice(path@),
{
    let pc = chars_of(path);
    // Strip the leading separators.
    let mut a: usize = 0;
    assert(pc@.skip(0) =~= pc@);
    while a < pc.len() && pc[a] == '/'
        invariant
            a <= pc.len(),
            trim_start_char(pc@.skip(a as int), '/') == trim_start_char(pc@, '/'),
        decreases pc.len() - a,
    {
        assert(pc@.skip(a as int).drop_first() =~= pc@.skip(a + 1));
        a += 1;
    }
    let p = slice_chars(&pc, a, pc.len());
    assert(p@ =~= pc@.skip(a as int));
    assert(p@ == trim_start_char(path@, '/'));
    let parts = split_chars(&p, '/');
    let ghost ps = seqs_of(parts@);
    let user = chars_of("user@");
    let service = chars_of(".service");
    // Find the user manager, summing the components' lengths on the way
    // (capped at the length of the path).
    let mut i: usize = 0;
    let mut sum: usize = 0;
    let mut found = false;
    assert(ps.skip(0) =~= ps);
    while i < parts.len() && !found
        invariant
            i <= parts.len(),
            ps == seqs_of(parts@),
            user@ == "user@"@,
            service@ == ".service"@,
            sum == min_int(components_len(ps, i as int), p@.len() as int),
            !found ==> first_user_manager(ps) == match first_user_manager(ps.skip(i as int)) {
                Some(j) => Some(j + i),
                None => None,
            },
            found ==> first_user_manager(ps) == Some(i - 1),
            found ==> i >= 1,
        decreases parts.len() - i + if found {
            0int
        } else {
            1
        },
    {
        assert(ps.skip(i as int)[0] == ps[i as int]);
        assert(ps.skip(i as int).drop_first() =~= ps.skip(i + 1));
        let hit = starts_with(&parts[i], &user) && ends_with(&parts[i], &service);
        let len = parts[i].len();
        sum = if len >= p.len() - sum {
            p.len()
        } else {
            sum + len + 1
        };
        i += 1;
        if hit {
            found = true;
        }
    }
    let rel: Vec<char> = if found {
        slice_chars(&p, sum, p.len())
    } else {
        proof {
            if first_user_manager(ps) is Some {
                assert(ps.skip(i as int).len() == 0);
            }
        }
        Vec::new()
    };
    assert(rel@ =~= user_relative(path@));
    let pieces = split_chars(&rel, '/');
    if pieces.len() >= 2 {
        string_of(&pieces[pieces.len() - 2])
    } else {
        String::new()
    }
}

/// The smaller of two integers.
pub open spec fn min_int(a: int, b: int) -> int {
    if a <= b {
        a
    } else {
        b
    }
}

/// The scope unit's name: `<slice base>-<name>.scope`, or, without a name,
/// `<slice base>-app-<escaped command basename>-<pid>.scope`.
pub open spec fn scope_name(slice: Seq<char>, name: Option<Seq<char>>, cmd0: Seq<char>, pid: nat) -> Seq<char> {
    let base = trim_end_all(slice, ".slice"@);
    match name {
        Some(n) => base + "-"@ + trim_end_all(n, ".scope"@) + ".scope"@,
        None => {
            let pieces = split_on(cmd0, '/');
            base + "-app-"@ + escaped_unit(pieces.last()) + "-"@ + decimal(pid) + ".scope"@
        },
    }
}

/// Splitting text that ends with a piece free of separators leaves that
/// piece growing at the end.
proof fn lemma_scan_tail(x: Seq<char>, c: Seq<char>, sep: char)
    requires
        forall|i: int| 0 <= i < c.len() ==> c[i] != sep,
    ensures
        crate::text::split_scan(x + c, sep).1 == crate::text::split_scan(x, sep).1 + c,
    decreases c.len(),
{
    if c.len() == 0 {
        assert(x + c =~= x);
        assert(crate::text::split_scan(x, sep).1 + c =~= crate::text::split_scan(x, sep).1);
    } else {
        let d = c.drop_last();
        assert((x + c).drop_last() =~= x + d);
        assert((x + c).last() == c.last());
        lemma_scan_tail(x, d, sep);
        assert(crate::text::split_scan(x, sep).1 + d + seq![c.last()] =~= crate::text::split_scan(x, sep).1 + c);
    }
}

/// Without a name, the scope is named after the command's file name alone:
/// a command given with its directory gets the same name as the bare
/// command, and for a bare command the name is the slice base, `-app-`, the
/// escaped command, `-`, the process id and `.scope`.
pub proof fn lemma_scope_named_by_basename(slice: Seq<char>, dir: Seq<char>, cmd: Seq<char>, pid: nat)
    requires
        forall|i: int| 0 <= i < cmd.len() ==> cmd[i] != '/',
    ensures
        scope_name(slice, None, dir + seq!['/'] + cmd, pid) == scope_name(slice, None, cmd, pid),
        scope_name(slice, None, cmd, pid) == trim_end_all(slice, ".slice"@) + "-app-"@ + escaped_unit(cmd) + "-"@
            + decimal(pid) + ".scope"@,
{
    let x = dir + seq!['/'];
    lemma_scan_tail(x, cmd, '/');
    assert(x.drop_last() =~= dir);
    assert(x.last() == '/');
    assert(crate::text::split_scan(x, '/').1 =~= Seq::<char>::empty());
    assert(Seq::<char>::empty() + cmd =~= cmd);
    lemma_scan_tail(Seq::<char>::empty(), cmd, '/');
    assert(Seq::<char>::empty() + cmd =~= cmd);
    assert(crate::text::split_scan(Seq::<char>::empty(), '/').1 =~= Seq::<char>::empty());
}

/// The name of the transient scope for the command.
pub fn scope_unit_name(target_slice: &str, name: Option<&str>, cmd0: &str, pid: u32) -> (out: String)
    ensures
        out@ == scope_name(
            target_slice@,
            match name {
                Some(n) => Some(n@),
                None => None,
            },
            cmd0@,
            pid as nat,
        ),
{
    let tc = chars_of(target_slice);
    let suffix = chars_of(".slice");
    let base = trim_end_matches(&tc, &suffix);
    let mut out = string_of(&base);
    match name {
        Some(n) => {
            let nc = chars_of(n);
            let scope = chars_of(".scope");
            let nb = trim_end_matches(&nc, &scope);
            push_str(&mut out, "-");
            push_chars(&mut out, &nb);
            push_str(&mut out, ".scope");
        },
        None => {
            let cc = chars_of(cmd0);
            let pieces = split_chars(&cc, '/');
            proof {
                crate::text::lemma_split_nonempty(cc@, '/');
            }
            let last = string_of(&pieces[pieces.len() - 1]);
            let esc = unit_escape(last.as_str());
            push_str(&mut out, "-app-");
            push_str(&mut out, esc.as_str());
            push_str(&mut out, "-");
            let p = decimal_string(pid as u64);
            push_str(&mut out, p.as_str());
            push_str(&mut out, ".scope");
        },
    }
    out
}

/// The `systemd-run` arguments that run the command in the scope.
pub open spec fn systemd_run_argv(slice: Seq<char>, unit: Seq<char>, cmd: Seq<String>) -> Seq<Seq<char>> {
    seq!["--user"@, "--scope"@, "--slice="@ + slice, "--unit="@ + unit, "--"@] + views(cmd)
}

/// The `systemd-run` arguments for the scope.
pub fn systemd_run_args(target_slice: &str, unit: &str, cmd: &Vec<String>) -> (out: Vec<String>)
    ensures
        views(out@) == systemd_run_argv(target_slice@, unit@, cmd@),
{
    let mut out: Vec<String> = Vec::new();
    out.push(string_from("--user"));
    out.push(string_from("--scope"));
    out.push(concat2("--slice=", target_slice));
    out.push(concat2("--unit=", unit));
    out.push(string_from("--"));
    let ghost head = views(out@);
    assert(head =~= seq!["--user"@, "--scope"@, "--slice="@ + target_slice@, "--unit="@ + unit@, "--"@]);
    let mut k: usize = 0;
    while k < cmd.len()
        invariant
            k <= cmd.len(),
            views(out@) == head + views(cmd@).take(k as int),
        decreases cmd.len() - k,
    {
        let ghost o0 = views(out@);
        out.push(cmd[k].clone());
        assert(views(out@) =~= o0.push(cmd@[k as int]@));
        assert(views(cmd@).take(k + 1) =~= views(cmd@).take(k as int).push(cmd@[k as int]@));
        k += 1;
    }
    assert(views(cmd@).take(cmd.len() as int) =~= views(cmd@));
    out
}

} // verus!
