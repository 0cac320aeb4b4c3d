//! The wrapper generator's text processing: shell wrapper scripts that
//! exec the sandbox runtime with baked-in flags, `.desktop` files whose
//! `Exec=` and `TryExec=` lines point at the wrappers, and the flags read
//! from a file of paths to bind.
use vstd::prelude::*;
use crate::lcs::views;
use crate::text::{
    chars_of, string_of, string_from, concat2, push_str, push_char, push_chars, lines, lines_of,
    seqs_of, trim, trim_chars, join, listed, is_listed, has_prefix, has_suffix, starts_with,
    ends_with, spec_path_join, path_join, slice_chars,
};

verus! {

// ---------------------------------------------------------------------------
// Shell quoting
// ---------------------------------------------------------------------------

/// Characters that make a word need quoting for a Unix shell.
pub open spec fn shell_special(c: char) -> bool {
    c == '\n' || c == '\'' || c == '|' || c == '&' || c == ';' || c == '<' || c == '>' || c == '('
        || c == ')' || c == '$' || c == '`' || c == '\\' || c == '"' || c == ' ' || c == '\t' || c
        == '*' || c == '?' || c == '[' || c == '#' || c == '~' || c == '=' || c == '%'
}

/// `w` with each single quote written as `'\''`.
pub open spec fn escape_single_quotes(w: Seq<char>) -> Seq<char>
    decreases w.len(),
{
    if w.len() == 0 {
        seq![]
    } else {
        escape_single_quotes(w.drop_last()) + if w.last() == '\'' {
            seq!['\'', '\\', '\'', '\'']
        } else {
            seq![w.last()]
        }
    }
}

/// A word quoted for a Unix shell: `''` when empty, unchanged when it
/// holds no special character, else in single quotes.
pub open spec fn shell_quote(w: Seq<char>) -> Seq<char> {
    if w.len() == 0 {
        seq!['\'', '\'']
    } else if forall|i: int| 0 <= i < w.len() ==> !shell_special(#[trigger] w[i]) {
        w
    } else {
        seq!['\''] + escape_single_quotes(w) + seq!['\'']
    }
}

/// Each word quoted.
pub open spec fn shell_quote_all(ws: Seq<Seq<char>>) -> Seq<Seq<char>> {
    ws.map_values(|w: Seq<char>| shell_quote(w))
}

/// `shell_words::join`: each word quoted with `shell_words::quote` and the
/// results separated by single spaces. The quoting rule of the source is
/// stated by `shell_quote`.
#[verifier::external_body]
fn shell_join(words: &Vec<String>) -> (s: String)
    ensures
        s@ == join(shell_quote_all(views(words@)), " "@),
{
    shell_words::join(words)
}

/// The wrapper script: exec the runtime with the flags, `--`, the
/// executable, and the wrapper's own arguments.
pub open spec fn wrapper_text(bubblewand: Seq<char>, flags: Seq<String>, exe: Seq<char>) -> Seq<char> {
    "#!/bin/sh\nexec "@ + join(
        shell_quote_all(seq![bubblewand] + views(flags) + seq!["--"@, exe]),
        " "@,
    ) + " \"$@\"\n"@
}

/// Generates a one-line wrapper script that execs the sandbox runtime with
/// the right flags.
pub fn wrapper_script(bubblewand: &str, flags: &[String], exe: &str) -> (s: String)
    ensures
        s@ == wrapper_text(bubblewand@, flags@, exe@),
{
    let mut args: Vec<String> = Vec::new();
    args.push(string_from(bubblewand));
    let mut k: usize = 0;
    while k < flags.len()
        invariant
            k <= flags.len(),
            views(args@) == seq![bubblewand@] + views(flags@).take(k as int),
        decreases flags.len() - k,
    {
        let ghost before = views(args@);
        args.push(flags[k].clone());
        assert(views(args@) =~= before.push(flags@[k as int]@));
        assert(views(flags@).take(k + 1) =~= views(flags@).take(k as int).push(flags@[k as int]@));
        k += 1;
    }
    assert(views(flags@).take(flags.len() as int) =~= views(flags@));
    let ghost mid = views(args@);
    args.push(string_from("--"));
    args.push(string_from(exe));
    assert(views(args@) =~= seq![bubblewand@] + views(flags@) + seq!["--"@, exe@]);
    let joined = shell_join(&args);
    let mut s = string_from("#!/bin/sh\nexec ");
    push_str(&mut s, joined.as_str());
    push_str(&mut s, " \"$@\"\n");
    s
}

// ---------------------------------------------------------------------------
// Desktop entries
// ---------------------------------------------------------------------------

/// `c` is ASCII whitespace: space, tab, line feed, form feed or carriage
/// return.
pub open spec fn is_ascii_ws(c: char) -> bool {
    c == ' ' || c == '\t' || c == '\n' || c == '\x0C' || c == '\r'
}

/// Index of the first ASCII whitespace in `s`, or its length.
pub open spec fn token_end(s: Seq<char>) -> nat
    decreases s.len(),
{
    if s.len() == 0 || is_ascii_ws(s[0]) {
        0
    } else {
        1 + token_end(s.drop_first())
    }
}

/// `p` without its trailing `/` characters.
pub open spec fn strip_slashes(p: Seq<char>) -> Seq<char>
    decreases p.len(),
{
    if p.len() > 0 && p.last() == '/' {
        strip_slashes(p.drop_last())
    } else {
        p
    }
}

/// The index of the last `/` in `p`, or -1.
pub open spec fn last_slash(p: Seq<char>) -> int
    decreases p.len(),
{
    if p.len() == 0 {
        -1
    } else if p.last() == '/' {
        p.len() - 1
    } else {
        last_slash(p.drop_last())
    }
}

/// `Path::file_name` on Unix: the last component of `p` when it is a name.
/// Trailing and repeated `/` are ignored, and so is a `.` component that
/// is not the first; there is none for an empty path, a root, a leading
/// `.` alone, or a path ending in `..`.
pub open spec fn spec_file_name(p: Seq<char>) -> Option<Seq<char>>
    decreases p.len(),
{
    let q = strip_slashes(p);
    if q.len() == 0 {
        None
    } else {
        let i = last_slash(q);
        let seg = q.skip(i + 1);
        if seg == seq!['.'] {
            if i >= 0 {
                proof {
                    lemma_strip_slashes_len(p);
                }
                spec_file_name(q.drop_last())
            } else {
                None
            }
        } else if seg == seq!['.', '.'] {
            None
        } else {
            Some(seg)
        }
    }
}

/// A path without its trailing slashes is a prefix of it that does not end
/// in `/`.
pub proof fn lemma_strip_slashes_len(p: Seq<char>)
    ensures
        strip_slashes(p).len() <= p.len(),
        strip_slashes(p).len() > 0 ==> strip_slashes(p).last() != '/',
        strip_slashes(p) == p.take(strip_slashes(p).len() as int),
    decreases p.len(),
{
    if p.len() > 0 && p.last() == '/' {
        lemma_strip_slashes_len(p.drop_last());
        assert(p.drop_last().take(strip_slashes(p).len() as int) =~= p.take(strip_slashes(p).len() as int));
    } else {
        assert(p.take(p.len() as int) =~= p);
    }
}

proof fn lemma_last_slash(p: Seq<char>)
    ensures
        -1 <= last_slash(p) < p.len(),
        last_slash(p) >= 0 ==> p[last_slash(p)] == '/',
        forall|j: int| last_slash(p) < j < p.len() ==> p[j] != '/',
    decreases p.len(),
{
    if p.len() > 0 && p.last() != '/' {
        lemma_last_slash(p.drop_last());
        assert forall|j: int| last_slash(p) < j < p.len() implies p[j] != '/' by {
            if j < p.len() - 1 {
                assert(p[j] == p.drop_last()[j]);
            }
        }
    }
}

/// Stripping slashes twice is stripping them once.
proof fn lemma_strip_idem(p: Seq<char>)
    ensures
        strip_slashes(strip_slashes(p)) == strip_slashes(p),
    decreases p.len(),
{
    if p.len() > 0 && p.last() == '/' {
        lemma_strip_idem(p.drop_last());
    }
}

/// `Path::file_name`: the final component of the path `p`, if it is a name.
pub fn file_name_of(p: &str) -> (r: Option<String>)
    ensures
        match r {
            Some(n) => spec_file_name(p@) == Some(n@),
            None => spec_file_name(p@) is None,
        },
{
    let mut v = chars_of(p);
    loop
        invariant
            spec_file_name(v@) == spec_file_name(p@),
        decreases v.len(),
    {
        let ghost v0 = v@;
        while v.len() > 0 && v[v.len() - 1] == '/'
            invariant
                strip_slashes(v@) == strip_slashes(v0),
            decreases v.len(),
        {
            let ghost before = v@;
            v.pop();
            assert(v@ =~= before.drop_last());
        }
        proof {
            lemma_strip_idem(v0);
            assert(strip_slashes(v@) == v@);
        }
        if v.len() == 0 {
            return None;
        }
        let mut i: usize = v.len();
        while i > 0 && v[i - 1] != '/'
            invariant
                0 <= i <= v.len(),
                forall|j: int| i <= j < v.len() ==> v@[j] != '/',
            decreases i,
        {
            i -= 1;
        }
        proof {
            lemma_last_slash(v@);
            let l = last_slash(v@);
            if i > 0 {
                assert(v@[i - 1] == '/');
                assert(l == i - 1) by {
                    if l < i - 1 {
                    } else if l > i - 1 {
                        assert(v@[l] == '/');
                    }
                }
            } else {
                assert(l == -1) by {
                    if l >= 0 {
                        assert(v@[l] == '/');
                    }
                }
            }
        }
        let seg = slice_chars(&v, i, v.len());
        assert(seg@ =~= v@.skip(i as int));
        if seg.len() == 1 && seg[0] == '.' {
            assert(seg@ =~= seq!['.']);
            if i > 0 {
                v.pop();
                proof {
                    lemma_strip_slashes_len(v0);
                }
            } else {
                return None;
            }
        } else if seg.len() == 2 && seg[0] == '.' && seg[1] == '.' {
            assert(seg@ =~= seq!['.', '.']);
            return None;
        } else {
            assert(seg@ != seq!['.']);
            assert(seg@ != seq!['.', '.']);
            return Some(string_of(&seg));
        }
    }
}

/// The executable named by a token: its file name, or the token itself.
pub open spec fn token_basename(tok: Seq<char>) -> Seq<char> {
    match spec_file_name(tok) {
        Some(b) => b,
        None => tok,
    }
}

/// The key of an `Exec=` or `TryExec=` line.
pub open spec fn exec_key(line: Seq<char>) -> Option<Seq<char>> {
    if has_prefix(line, "Exec="@) {
        Some("Exec="@)
    } else if has_prefix(line, "TryExec="@) {
        Some("TryExec="@)
    } else {
        None
    }
}

/// One line of a desktop file, and whether it was rewritten: an `Exec=`
/// or `TryExec=` line whose executable's file name is one of `bins` points
/// at that file name under `out_bin`, arguments kept.
pub open spec fn patched_line(line: Seq<char>, bins: Seq<String>, out_bin: Seq<char>) -> (Seq<char>, bool) {
    match exec_key(line) {
        None => (line, false),
        Some(key) => {
            let val = line.skip(key.len() as int);
            let e = token_end(val) as int;
            let tok = val.take(e);
            let rest = val.skip(e);
            let base = token_basename(tok);
            if listed(bins, base) {
                (key + spec_path_join(out_bin, base) + rest, true)
            } else {
                (line, false)
            }
        },
    }
}

/// The patched lines, each followed by a line feed, and whether any was
/// rewritten.
pub open spec fn patched_lines(ls: Seq<Seq<char>>, bins: Seq<String>, out_bin: Seq<char>) -> (Seq<char>, bool)
    decreases ls.len(),
{
    if ls.len() == 0 {
        (seq![], false)
    } else {
        let (text, any) = patched_lines(ls.drop_last(), bins, out_bin);
        let (line, hit) = patched_line(ls.last(), bins, out_bin);
        (text + line + seq!['\n'], any || hit)
    }
}

/// A patched desktop file: its lines patched, with a final line feed only
/// when the original had one; and whether any line was rewritten.
pub open spec fn patched_desktop(content: Seq<char>, bins: Seq<String>, out_bin: Seq<char>) -> (Seq<char>, bool) {
    let (text, any) = patched_lines(lines(content), bins, out_bin);
    if !has_suffix(content, "\n"@) && text.len() > 0 {
        (text.drop_last(), any)
    } else {
        (text, any)
    }
}

/// Length of the leading token (up to the first ASCII whitespace).
fn token_len(s: &Vec<char>) -> (e: usize)
    ensures
        e == token_end(s@),
        e <= s.len(),
{
    let mut e: usize = 0;
    assert(s@.skip(0) =~= s@);
    while e < s.len() && !(s[e] == ' ' || s[e] == '\t' || s[e] == '\n' || s[e] == '\x0C' || s[e]
        == '\r')
        invariant
            e <= s.len(),
            e + token_end(s@.skip(e as int)) == token_end(s@),
        decreases s.len() - e,
    {
        assert(s@.skip(e as int).drop_first() =~= s@.skip(e + 1));
        e += 1;
    }
    e
}

/// Patches one line of a desktop file.
pub fn patch_line(line: &Vec<char>, src_bins: &[String], out_bin: &str) -> (r: (Vec<char>, bool))
    ensures
        (r.0@, r.1) == patched_line(line@, src_bins@, out_bin@),
{
    let exec = chars_of("Exec=");
    let try_exec = chars_of("TryExec=");
    let key = if starts_with(line, &exec) {
        exec
    } else if starts_with(line, &try_exec) {
        try_exec
    } else {
        return (line.clone(), false);
    };
    proof {
        reveal_strlit("Exec=");
        reveal_strlit("TryExec=");
    }
    let val = slice_chars(line, key.len(), line.len());
    assert(val@ =~= line@.skip(key@.len() as int));
    let e = token_len(&val);
    let tok = slice_chars(&val, 0, e);
    let rest = slice_chars(&val, e, val.len());
    assert(tok@ =~= val@.take(e as int));
    assert(rest@ =~= val@.skip(e as int));
    let tok_s = string_of(&tok);
    let base = match file_name_of(tok_s.as_str()) {
        Some(b) => b,
        None => tok_s,
    };
    if is_listed_slice(src_bins, base.as_str()) {
        let target = path_join(out_bin, base.as_str());
        let mut out = key.clone();
        let tc = chars_of(target.as_str());
        let ghost k0 = out@;
        let mut i: usize = 0;
        while i < tc.len()
            invariant
                i <= tc.len(),
                out@ == k0 + tc@.take(i as int),
            decreases tc.len() - i,
        {
            out.push(tc[i]);
            i += 1;
            assert(out@ =~= k0 + tc@.take(i as int));
        }
        let ghost k1 = out@;
        let mut j: usize = 0;
        while j < rest.len()
            invariant
                j <= rest.len(),
                out@ == k1 + rest@.take(j as int),
            decreases rest.len() - j,
        {
            out.push(rest[j]);
            j += 1;
            assert(out@ =~= k1 + rest@.take(j as int));
        }
        assert(tc@.take(tc.len() as int) =~= tc@);
        assert(rest@.take(rest.len() as int) =~= rest@);
        (out, true)
    } else {
        (line.clone(), false)
    }
}

/// Whether `p` is one of `list`.
fn is_listed_slice(list: &[String], p: &str) -> (b: bool)
    ensures
        b == listed(list@, p@),
{
    let k = string_from(p);
    let mut i: usize = 0;
    while i < list.len()
        invariant
            i <= list.len(),
            k@ == p@,
            forall|j: int| 0 <= j < i ==> list@[j]@ != p@,
        decreases list.len() - i,
    {
        if list[i] == k {
            return true;
        }
        i += 1;
    }
    false
}

/// Patches the `Exec=` and `TryExec=` lines of a desktop file, replacing
/// any reference to a binary in `src_bins` by its counterpart under
/// `out_bin`. Also says whether any line was replaced.
pub fn patch_desktop(content: &str, src_bins: &[String], out_bin: &str) -> (r: (String, bool))
    ensures
        (r.0@, r.1) == patched_desktop(content@, src_bins@, out_bin@),
{
    let cs = chars_of(content);
    let ls = lines_of(&cs);
    let ghost lv = seqs_of(ls@);
    let mut out: Vec<char> = Vec::new();
    let mut replaced = false;
    let mut k: usize = 0;
    assert(lv.take(0) =~= Seq::<Seq<char>>::empty());
    while k < ls.len()
        invariant
            k <= ls.len(),
            lv == seqs_of(ls@),
            (out@, replaced) == patched_lines(lv.take(k as int), src_bins@, out_bin@),
        decreases ls.len() - k,
    {
        assert(lv.take(k + 1).drop_last() =~= lv.take(k as int));
        assert(lv.take(k + 1).last() == ls@[k as int]@);
        let (line, hit) = patch_line(&ls[k], src_bins, out_bin);
        let ghost o0 = out@;
        let mut i: usize = 0;
        while i < line.len()
            invariant
                i <= line.len(),
                out@ == o0 + line@.take(i as int),
            decreases line.len() - i,
        {
            out.push(line[i]);
            i += 1;
            assert(out@ =~= o0 + line@.take(i as int));
        }
        assert(line@.take(line.len() as int) =~= line@);
        out.push('\n');
        replaced = replaced || hit;
        k += 1;
    }
    assert(lv.take(ls.len() as int) =~= lv);
    let nl = chars_of("\n");
    if !ends_with(&cs, &nl) && out.len() > 0 {
        out.pop();
        proof {
            assert(out@ =~= patched_lines(lv, src_bins@, out_bin@).0.drop_last());
        }
    }
    (string_of(&out), replaced)
}

// ---------------------------------------------------------------------------
// Flags
// ---------------------------------------------------------------------------

/// `--ro-bind=P:P` for each non-blank line `P` (trimmed) of a file of
/// paths.
pub open spec fn ro_bind_lines(ls: Seq<Seq<char>>) -> Seq<Seq<char>>
    decreases ls.len(),
{
    if ls.len() == 0 {
        seq![]
    } else {
        let p = trim(ls.last());
        ro_bind_lines(ls.drop_last()) + if p.len() > 0 {
            seq!["--ro-bind="@ + p + ":"@ + p]
        } else {
            seq![]
        }
    }
}

/// The flags that bind each path listed in `content` to itself.
pub fn ro_bind_file_flags(content: &str) -> (out: Vec<String>)
    ensures
        views(out@) == ro_bind_lines(lines(content@)),
{
    let cs = chars_of(content);
    let ls = lines_of(&cs);
    let ghost lv = seqs_of(ls@);
    let mut out: Vec<String> = Vec::new();
    let mut k: usize = 0;
    assert(lv.take(0) =~= Seq::<Seq<char>>::empty());
    while k < ls.len()
        invariant
            k <= ls.len(),
            lv == seqs_of(ls@),
            views(out@) == ro_bind_lines(lv.take(k as int)),
        decreases ls.len() - k,
    {
        assert(lv.take(k + 1).drop_last() =~= lv.take(k as int));
        assert(lv.take(k + 1).last() == ls@[k as int]@);
        let p = trim_chars(&ls[k]);
        if p.len() > 0 {
            let ps = string_of(&p);
            let mut flag = concat2("--ro-bind=", ps.as_str());
            push_str(&mut flag, ":");
            push_str(&mut flag, ps.as_str());
            let ghost o0 = views(out@);
            out.push(flag);
            assert(views(out@) =~= o0.push("--ro-bind="@ + p@ + ":"@ + p@));
        } else {
            assert(views(out@) =~= views(out@) + Seq::<Seq<char>>::empty());
        }
        k += 1;
    }
    assert(lv.take(ls.len() as int) =~= lv);
    out
}

/// The runtime's command line for running `exe` directly: the flags, `--`,
/// the executable and its arguments.
pub fn exec_command(flags: &Vec<String>, exe: &str, args: &Vec<String>) -> (out: Vec<String>)
    ensures
        views(out@) == views(flags@) + seq!["--"@, exe@] + views(args@),
{
    let mut out: Vec<String> = Vec::new();
    let mut k: usize = 0;
    while k < flags.len()
        invariant
            k <= flags.len(),
            views(out@) == views(flags@).take(k as int),
        decreases flags.len() - k,
    {
        let ghost o0 = views(out@);
        out.push(flags[k].clone());
        assert(views(out@) =~= o0.push(flags@[k as int]@));
        assert(views(flags@).take(k + 1) =~= views(flags@).take(k as int).push(flags@[k as int]@));
        k += 1;
    }
    assert(views(flags@).take(flags.len() as int) =~= views(flags@));
    out.push(string_from("--"));
    out.push(string_from(exe));
    let ghost mid = views(out@);
    assert(mid =~= views(flags@) + seq!["--"@, exe@]);
    let mut j: usize = 0;
    while j < args.len()
        invariant
            j <= args.len(),
            views(out@) == mid + views(args@).take(j as int),
        decreases args.len() - j,
    {
        let ghost o0 = views(out@);
        out.push(args[j].clone());
        assert(views(out@) =~= o0.push(args@[j as int]@));
        assert(views(args@).take(j + 1) =~= views(args@).take(j as int).push(args@[j as int]@));
        j += 1;
    }
    assert(views(args@).take(args.len() as int) =~= views(args@));
    out
}

/// Whether to wrap the executable `name`: every one when no `--bin` was
/// given, else only those named.
pub fn should_wrap(bins: &Vec<String>, name: &str) -> (b: bool)
    ensures
        b == (bins@.len() == 0 || listed(bins@, name@)),
{
    bins.len() == 0 || is_listed(bins, name)
}

} // verus!
