//! The pure core of the dictation typist: a character diff between what
//! the field holds and what it should hold, the cursor operations that
//! carry the diff out with the cursor starting at the end of the field,
//! and an in-memory model of a field that runs those operations.
use vstd::prelude::*;
use crate::lcs::{lcs_len, lcs_table_ok, char_lcs_table, lemma_lcs_step, lemma_lcs_end, u32_int};
use crate::lcs::{string_lcs_table, usize_int, views, lemma_lcs_bound};
use crate::text::{
    chars_of, push_char, push_chars, string_of, string_from, seqs_of, split_ws, split_whitespace,
    is_alphanumeric, to_lowercase, spec_is_alphanumeric, spec_to_lowercase, trim, trim_chars,
};
use crate::bwrap::digits_value;

verus! {

/// A change to a region of the field: delete `del` characters starting at
/// character index `at`, and insert `ins` there.
pub struct Hunk {
    pub at: usize,
    pub del: usize,
    pub ins: String,
}

/// A cursor operation of the typist.
#[derive(Debug, PartialEq)]
pub enum Op {
    Left(usize),
    Right(usize),
    Back(usize),
    Type(String),
}

// ---------------------------------------------------------------------------
// Models
// ---------------------------------------------------------------------------

/// The result of applying hunks, sorted by position and not overlapping,
/// to `have`.
pub open spec fn apply_hunks(have: Seq<char>, hs: Seq<Hunk>) -> Seq<char>
    decreases hs.len(),
{
    if hs.len() == 0 {
        have
    } else {
        let h = hs.last();
        apply_hunks(have.subrange(0, h.at as int), hs.drop_last()) + h.ins@ + have.subrange(
            h.at + h.del,
            have.len() as int,
        )
    }
}

/// Hunks in increasing position, none overlapping the next, all inside a
/// text of length `len`.
pub open spec fn hunks_ordered(hs: Seq<Hunk>, len: int) -> bool {
    &&& forall|k: int| 0 <= k < hs.len() ==> #[trigger] hs[k].at + hs[k].del <= len
    &&& forall|k: int|
        0 <= k < hs.len() - 1 ==> #[trigger] hs[k].at < hs[k + 1].at && hs[k].at + hs[k].del
            <= hs[k + 1].at
}

/// Each hunk's insertion ends at a position that fits in `usize`.
pub open spec fn hunks_fit(hs: Seq<Hunk>) -> bool {
    forall|k: int| 0 <= k < hs.len() ==> #[trigger] hs[k].at + hs[k].ins@.len() <= usize::MAX
}

/// Hunks as a diff produces them: ordered, separated by at least one
/// unchanged character, and each changing something.
pub open spec fn hunks_separated(hs: Seq<Hunk>, len: int) -> bool {
    &&& hunks_ordered(hs, len)
    &&& forall|k: int| 0 <= k < hs.len() - 1 ==> #[trigger] hs[k].at + hs[k].del < hs[k + 1].at
    &&& forall|k: int| 0 <= k < hs.len() ==> #[trigger] hs[k].del > 0 || hs[k].ins@.len() > 0
}

/// Total number of characters the hunks delete.
pub open spec fn deleted_total(hs: Seq<Hunk>) -> nat
    decreases hs.len(),
{
    if hs.len() == 0 {
        0
    } else {
        deleted_total(hs.drop_last()) + hs.last().del as nat
    }
}

/// Total number of characters the hunks insert.
pub open spec fn inserted_total(hs: Seq<Hunk>) -> nat
    decreases hs.len(),
{
    if hs.len() == 0 {
        0
    } else {
        inserted_total(hs.drop_last()) + hs.last().ins@.len()
    }
}

/// One operation on a field with a cursor. The cursor never leaves the
/// field: moves and deletions stop at its ends.
pub open spec fn op_step(state: (Seq<char>, int), op: Op) -> (Seq<char>, int) {
    let (f, c) = state;
    match op {
        Op::Left(n) => (f, if c >= n { c - n } else { 0 }),
        Op::Right(n) => (f, if c + n <= f.len() { c + n } else { f.len() as int }),
        Op::Back(n) => {
            let start = if c >= n { c - n } else { 0 };
            (f.subrange(0, start) + f.subrange(c, f.len() as int), start)
        },
        Op::Type(t) => (f.subrange(0, c) + t@ + f.subrange(c, f.len() as int), c + t@.len()),
    }
}

/// A sequence of operations, run in order.
pub open spec fn run_ops(state: (Seq<char>, int), ops: Seq<Op>) -> (Seq<char>, int)
    decreases ops.len(),
{
    if ops.len() == 0 {
        state
    } else {
        op_step(run_ops(state, ops.drop_last()), ops.last())
    }
}

/// The field after running `ops` on `field`, with the cursor starting at
/// its end.
pub open spec fn field_after(field: Seq<char>, ops: Seq<Op>) -> Seq<char> {
    run_ops((field, field.len() as int), ops).0
}

/// The operations for one hunk, with the cursor at `cursor`, and the cursor
/// afterwards: move left to the end of the hunk, delete back over it, type
/// the insertion.
pub open spec fn hunk_ops(h: Hunk, cursor: int) -> (Seq<Op>, int) {
    let target = h.at + h.del;
    let left = if cursor > target {
        seq![Op::Left((cursor - target) as usize)]
    } else {
        seq![]
    };
    let back = if h.del > 0 {
        seq![Op::Back(h.del)]
    } else {
        seq![]
    };
    let typ = if h.ins@.len() > 0 {
        seq![Op::Type(h.ins)]
    } else {
        seq![]
    };
    (left + back + typ, h.at + h.ins@.len())
}

/// The operations for hunks `k-1`, `k-2`, ..., `0`, in that order,
/// starting with the cursor at `cursor`, and the cursor afterwards.
pub open spec fn plan_from(hs: Seq<Hunk>, k: int, cursor: int) -> (Seq<Op>, int)
    decreases k,
{
    if k <= 0 {
        (seq![], cursor)
    } else {
        let (o1, c1) = hunk_ops(hs[k - 1], cursor);
        let (o2, c2) = plan_from(hs, k - 1, c1);
        (o1 + o2, c2)
    }
}

/// The plan for `hs` in a field of `have_len` characters: every hunk from
/// the rightmost to the leftmost, then a move right to `want_len`.
pub open spec fn plan_ops(hs: Seq<Hunk>, have_len: int, want_len: int) -> Seq<Op> {
    let (o, c) = plan_from(hs, hs.len() as int, have_len);
    if want_len > c {
        o.push(Op::Right((want_len - c) as usize))
    } else {
        o
    }
}

// ---------------------------------------------------------------------------
// Lemmas
// ---------------------------------------------------------------------------

/// Running two sequences of operations one after the other.
pub proof fn lemma_run_concat(s: (Seq<char>, int), a: Seq<Op>, b: Seq<Op>)
    ensures
        run_ops(s, a + b) == run_ops(run_ops(s, a), b),
    decreases b.len(),
{
    if b.len() == 0 {
        assert(a + b =~= a);
    } else {
        assert((a + b).drop_last() =~= a + b.drop_last());
        assert((a + b).last() == b.last());
        lemma_run_concat(s, a, b.drop_last());
    }
}

/// Text after the last hunk is carried through unchanged.
pub proof fn lemma_apply_append(s: Seq<char>, t: Seq<char>, hs: Seq<Hunk>)
    requires
        forall|k: int| 0 <= k < hs.len() ==> #[trigger] hs[k].at + hs[k].del <= s.len(),
    ensures
        apply_hunks(s + t, hs) == apply_hunks(s, hs) + t,
    decreases hs.len(),
{
    if hs.len() > 0 {
        let h = hs.last();
        assert((s + t).subrange(0, h.at as int) =~= s.subrange(0, h.at as int));
        assert((s + t).subrange(h.at + h.del, (s + t).len() as int) =~= s.subrange(
            h.at + h.del,
            s.len() as int,
        ) + t);
        let p = apply_hunks(s.subrange(0, h.at as int), hs.drop_last());
        assert(p + h.ins@ + (s.subrange(h.at + h.del, s.len() as int) + t) =~= (p + h.ins@
            + s.subrange(h.at + h.del, s.len() as int)) + t);
    }
}

/// One hunk's operations, with the cursor at or right of the hunk's end,
/// replace the hunk's text by its insertion and leave the cursor after it.
proof fn lemma_hunk_ops(h: Hunk, have: Seq<char>, p: int, t: Seq<char>, c: int)
    requires
        0 <= h.at + h.del <= p <= have.len(),
        p <= c <= p + t.len(),
        c <= usize::MAX,
    ensures
        run_ops((have.subrange(0, p) + t, c), hunk_ops(h, c).0) == (have.subrange(0, h.at as int)
            + (h.ins@ + have.subrange(h.at + h.del, p) + t), h.at + h.ins@.len()),
        hunk_ops(h, c).1 == h.at + h.ins@.len(),
{
    let f = have.subrange(0, p) + t;
    let target = h.at + h.del;
    let left = if c > target {
        seq![Op::Left((c - target) as usize)]
    } else {
        seq![]
    };
    let back = if h.del > 0 {
        seq![Op::Back(h.del)]
    } else {
        seq![]
    };
    let typ = if h.ins@.len() > 0 {
        seq![Op::Type(h.ins)]
    } else {
        seq![]
    };
    let s1 = run_ops((f, c), left);
    assert(s1 == (f, target)) by {
        if c > target {
            assert(left.drop_last() =~= Seq::<Op>::empty());
            assert(run_ops((f, c), left.drop_last()) == (f, c));
        }
    }
    let f2 = have.subrange(0, h.at as int) + (have.subrange(target, p) + t);
    let s2 = run_ops(s1, back);
    assert(s2 == (f2, h.at as int)) by {
        if h.del > 0 {
            assert(back.drop_last() =~= Seq::<Op>::empty());
            assert(run_ops(s1, back.drop_last()) == s1);
            assert(f.subrange(0, h.at as int) =~= have.subrange(0, h.at as int));
            assert(f.subrange(target, f.len() as int) =~= have.subrange(target, p) + t);
        } else {
            assert(f =~= f2);
        }
    }
    let t3 = h.ins@ + have.subrange(target, p) + t;
    let f3 = have.subrange(0, h.at as int) + t3;
    let s3 = run_ops(s2, typ);
    assert(s3 == (f3, h.at + h.ins@.len())) by {
        if h.ins@.len() > 0 {
            assert(typ.drop_last() =~= Seq::<Op>::empty());
            assert(run_ops(s2, typ.drop_last()) == s2);
            assert(f2.subrange(0, h.at as int) =~= have.subrange(0, h.at as int));
            assert(f2.subrange(h.at as int, f2.len() as int) =~= have.subrange(target, p) + t);
            assert(f3 =~= have.subrange(0, h.at as int) + h.ins@ + (have.subrange(target, p) + t));
        } else {
            assert(f3 =~= f2);
        }
    }
    lemma_run_concat((f, c), left, back);
    lemma_run_concat((f, c), left + back, typ);
}

/// The hunks' operations turn `have[..p] + t` into `apply_hunks(have[..p],
/// hs[..k]) + t`, where `p` is where hunk `k` starts (or the end).
proof fn lemma_plan_from(hs: Seq<Hunk>, k: int, have: Seq<char>, t: Seq<char>, c: int)
    requires
        hunks_ordered(hs, have.len() as int),
        hunks_fit(hs),
        0 <= k <= hs.len(),
        c <= usize::MAX,
        ({
            let p = if k == hs.len() {
                have.len() as int
            } else {
                hs[k].at as int
            };
            p <= c <= p + t.len()
        }),
    ensures
        ({
            let p = if k == hs.len() {
                have.len() as int
            } else {
                hs[k].at as int
            };
            run_ops((have.subrange(0, p) + t, c), plan_from(hs, k, c).0) == (apply_hunks(
                have.subrange(0, p),
                hs.subrange(0, k),
            ) + t, plan_from(hs, k, c).1)
        }),
    decreases k,
{
    let p = if k == hs.len() {
        have.len() as int
    } else {
        hs[k].at as int
    };
    let f = have.subrange(0, p) + t;
    if k == 0 {
        assert(hs.subrange(0, 0) =~= Seq::<Hunk>::empty());
        assert(run_ops((f, c), seq![]) == (f, c));
    } else {
        let h = hs[k - 1];
        let target = h.at + h.del;
        assert(target <= p) by {
            if k < hs.len() {
                assert(hs[k - 1].at + hs[k - 1].del <= hs[k].at);
            }
        }
        assert(h.at + h.ins@.len() <= usize::MAX);
        lemma_hunk_ops(h, have, p, t, c);
        let (o1, c1) = hunk_ops(h, c);
        let t3 = h.ins@ + have.subrange(target, p) + t;
        lemma_plan_from(hs, k - 1, have, t3, c1);
        let (o2, c2) = plan_from(hs, k - 1, c1);
        lemma_run_concat((f, c), o1, o2);
        let sub = hs.subrange(0, k);
        assert(sub.drop_last() =~= hs.subrange(0, k - 1));
        assert(sub.last() == h);
        let hp = have.subrange(0, p);
        assert(hp.subrange(0, h.at as int) =~= have.subrange(0, h.at as int));
        assert(hp.subrange(target, hp.len() as int) =~= have.subrange(target, p));
        let a = apply_hunks(have.subrange(0, h.at as int), hs.subrange(0, k - 1));
        assert(a + t3 =~= a + h.ins@ + have.subrange(target, p) + t);
    }
}

/// Carrying out the plan for ordered hunks on a field holding `have`, with
/// the cursor at its end, leaves `apply_hunks(have, hs)` in the field.
pub proof fn lemma_plan_applies(hs: Seq<Hunk>, have: Seq<char>, want_len: int)
    requires
        hunks_ordered(hs, have.len() as int),
        hunks_fit(hs),
        have.len() <= usize::MAX,
        0 <= want_len <= usize::MAX,
    ensures
        field_after(have, plan_ops(hs, have.len() as int, want_len)) == apply_hunks(have, hs),
{
    let n = have.len() as int;
    lemma_plan_from(hs, hs.len() as int, have, seq![], n);
    assert(have.subrange(0, n) + seq![] =~= have);
    assert(hs.subrange(0, hs.len() as int) =~= hs);
    let (o, c) = plan_from(hs, hs.len() as int, n);
    if want_len > c {
        let ops = o.push(Op::Right((want_len - c) as usize));
        assert(ops.drop_last() =~= o);
    }
}

/// One run of edits of the walk from `h` to `w`, up to the next kept
/// character or the end of both: how many characters of `h` it deletes,
/// the characters of `w` it inserts, and what remains of both. At a
/// difference the walk inserts the next character of `w` when that leaves
/// a longest common subsequence of what remains at least as long as
/// deleting would, and deletes otherwise.
pub open spec fn edit_run(h: Seq<char>, w: Seq<char>) -> (nat, Seq<char>, Seq<char>, Seq<char>)
    decreases h.len() + w.len(),
{
    if (h.len() == 0 && w.len() == 0) || (h.len() > 0 && w.len() > 0 && h[0] == w[0]) {
        (0, seq![], h, w)
    } else if w.len() > 0 && (h.len() == 0 || lcs_len(h, w.drop_first()) >= lcs_len(h.drop_first(), w)) {
        let r = edit_run(h, w.drop_first());
        (r.0, seq![w[0]] + r.1, r.2, r.3)
    } else {
        let r = edit_run(h.drop_first(), w);
        ((r.0 + 1) as nat, r.1, r.2, r.3)
    }
}

/// A run consumes exactly what it deletes and inserts.
pub proof fn lemma_edit_run_len(h: Seq<char>, w: Seq<char>)
    ensures
        edit_run(h, w).2.len() + edit_run(h, w).0 == h.len(),
        edit_run(h, w).3.len() + edit_run(h, w).1.len() == w.len(),
    decreases h.len() + w.len(),
{
    if (h.len() == 0 && w.len() == 0) || (h.len() > 0 && w.len() > 0 && h[0] == w[0]) {
    } else if w.len() > 0 && (h.len() == 0 || lcs_len(h, w.drop_first()) >= lcs_len(h.drop_first(), w)) {
        lemma_edit_run_len(h, w.drop_first());
    } else {
        lemma_edit_run_len(h.drop_first(), w);
    }
}

/// The hunks of the walk from `h` to `w` as (position, deleted count,
/// inserted text), positions counted from `at`: kept characters are
/// skipped, and each run of edits between them is one hunk.
pub open spec fn greedy_hunks(h: Seq<char>, w: Seq<char>, at: int) -> Seq<(int, nat, Seq<char>)>
    decreases h.len() + w.len(),
{
    if h.len() == 0 && w.len() == 0 {
        seq![]
    } else if h.len() > 0 && w.len() > 0 && h[0] == w[0] {
        greedy_hunks(h.drop_first(), w.drop_first(), at + 1)
    } else {
        let r = edit_run(h, w);
        proof {
            lemma_edit_run_len(h, w);
        }
        seq![(at, r.0, r.1)] + greedy_hunks(r.2, r.3, at + r.0)
    }
}

/// Hunks as (position, deleted count, inserted text).
pub open spec fn hunk_view(hs: Seq<Hunk>) -> Seq<(int, nat, Seq<char>)> {
    hs.map_values(|x: Hunk| (x.at as int, x.del as nat, x.ins@))
}

// ---------------------------------------------------------------------------
// Executable code
// ---------------------------------------------------------------------------

/// Character-level diff from `have` to `want` as separate hunks: the
/// characters they keep form a longest common subsequence of the two, so
/// revising an early word and appending at the end give two small hunks,
/// not one rewrite of everything between them.
#[verifier::spinoff_prover]
#[verifier::rlimit(40)]
pub fn diff(have: &str, want: &str) -> (hunks: Vec<Hunk>)
    requires
        have@.len() <= u32::MAX || want@.len() <= u32::MAX,
    ensures
        hunks_separated(hunks@, have@.len() as int),
        apply_hunks(have@, hunks@) == want@,
        deleted_total(hunks@) == have@.len() - lcs_len(have@, want@),
        inserted_total(hunks@) == want@.len() - lcs_len(have@, want@),
        forall|k: int| 0 <= k < hunks@.len() ==> #[trigger] hunks@[k].ins@.len() <= want@.len(),
        hunk_view(hunks@) == greedy_hunks(have@, want@, 0),
{
    let h = chars_of(have);
    let w = chars_of(want);
    let n = h.len();
    let m = w.len();
    let lcs = char_lcs_table(&h, &w);
    let ghost total = lcs_len(h@, w@);
    let mut hunks: Vec<Hunk> = Vec::new();
    let mut i: usize = 0;
    let mut j: usize = 0;
    let ghost mut matched: int = 0;
    assert(h@.skip(0) =~= h@);
    assert(w@.skip(0) =~= w@);
    assert(h@.take(0) =~= Seq::<char>::empty());
    assert(w@.take(0) =~= Seq::<char>::empty());
    while i < n || j < m
        invariant
            n == h.len(),
            m == w.len(),
            h@ == have@,
            w@ == want@,
            total == lcs_len(h@, w@),
            lcs_table_ok(lcs@, h@, w@, |x: u32| u32_int(x)),
            i <= n,
            j <= m,
            hunks_separated(hunks@, i as int),
            hunks@.len() > 0 ==> hunks@.last().at + hunks@.last().del < i || (hunks@.last().at
                + hunks@.last().del == i && ((i == n && j == m) || (i < n && j < m && h@[i as int]
                == w@[j as int]))),
            apply_hunks(h@.take(i as int), hunks@) == w@.take(j as int),
            matched + lcs_len(h@.skip(i as int), w@.skip(j as int)) == total,
            deleted_total(hunks@) == i - matched,
            inserted_total(hunks@) == j - matched,
            forall|k: int| 0 <= k < hunks@.len() ==> #[trigger] hunks@[k].ins@.len() <= m,
            hunk_view(hunks@) + greedy_hunks(h@.skip(i as int), w@.skip(j as int), i as int)
                == greedy_hunks(h@, w@, 0),
        decreases n - i + m - j,
    {
        proof {
            assert(h@.skip(i as int).len() == n - i);
            assert(w@.skip(j as int).len() == m - j);
            if i < n {
                assert(h@.skip(i as int)[0] == h@[i as int]);
                assert(h@.skip(i as int).drop_first() =~= h@.skip(i + 1));
            }
            if j < m {
                assert(w@.skip(j as int)[0] == w@[j as int]);
                assert(w@.skip(j as int).drop_first() =~= w@.skip(j + 1));
            }
        }
        if i < n && j < m && h[i] == w[j] {
            proof {
                lemma_lcs_step(h@, w@, i as int, j as int);
                lemma_apply_append(h@.take(i as int), seq![h@[i as int]], hunks@);
                assert(h@.take(i + 1) =~= h@.take(i as int) + seq![h@[i as int]]);
                assert(w@.take(j + 1) =~= w@.take(j as int) + seq![w@[j as int]]);
                matched = matched + 1;
            }
            i += 1;
            j += 1;
            continue;
        }
        let at = i;
        let ghost j0 = j;
        let ghost d0 = deleted_total(hunks@);
        let ghost n0 = inserted_total(hunks@);
        let ghost run = edit_run(h@.skip(at as int), w@.skip(j0 as int));
        assert(greedy_hunks(h@.skip(at as int), w@.skip(j0 as int), at as int) == seq![(at as int, run.0, run.1)]
            + greedy_hunks(run.2, run.3, at + run.0));
        let mut ins = String::new();
        let mut first = true;
        while i < n || j < m
            invariant
                n == h.len(),
                m == w.len(),
                h@ == have@,
                w@ == want@,
                total == lcs_len(h@, w@),
                lcs_table_ok(lcs@, h@, w@, |x: u32| u32_int(x)),
                at <= i <= n,
                j0 <= j <= m,
                ins@ == w@.subrange(j0 as int, j as int),
                first ==> i == at && j == j0,
                first ==> i < n || j < m,
                first ==> !(i < n && j < m && h@[i as int] == w@[j as int]),
                !first ==> i > at || j > j0,
                matched + lcs_len(h@.skip(i as int), w@.skip(j as int)) == total,
                d0 == at - matched,
                n0 == j0 - matched,
                run == edit_run(h@.skip(at as int), w@.skip(j0 as int)),
                run.0 == (i - at) + edit_run(h@.skip(i as int), w@.skip(j as int)).0,
                run.1 == ins@ + edit_run(h@.skip(i as int), w@.skip(j as int)).1,
                run.2 == edit_run(h@.skip(i as int), w@.skip(j as int)).2,
                run.3 == edit_run(h@.skip(i as int), w@.skip(j as int)).3,
            ensures
                (i == n && j == m) || (i < n && j < m && h@[i as int] == w@[j as int]),
                !first,
            decreases n - i + m - j,
        {
            if i < n && j < m && h[i] == w[j] {
                break;
            }
            proof {
                assert(h@.skip(i as int).len() == n - i);
                assert(w@.skip(j as int).len() == m - j);
                if i < n {
                    assert(h@.skip(i as int)[0] == h@[i as int]);
                    assert(h@.skip(i as int).drop_first() =~= h@.skip(i + 1));
                }
                if j < m {
                    assert(w@.skip(j as int)[0] == w@[j as int]);
                    assert(w@.skip(j as int).drop_first() =~= w@.skip(j + 1));
                }
                if i < n && j < m {
                    lemma_lcs_step(h@, w@, i as int, j as int);
                    assert(lcs@[i as int]@[j + 1] == lcs_len(h@.skip(i as int), w@.skip(j + 1)));
                    assert(lcs@[i + 1]@[j as int] == lcs_len(h@.skip(i + 1), w@.skip(j as int)));
                } else if i < n {
                    lemma_lcs_end(h@, w@, i as int, j as int);
                    lemma_lcs_end(h@, w@, i + 1, j as int);
                } else {
                    lemma_lcs_end(h@, w@, i as int, j as int);
                    lemma_lcs_end(h@, w@, i as int, j + 1);
                }
            }
            if j < m && (i >= n || lcs[i][j + 1] >= lcs[i + 1][j]) {
                let ghost ins0 = ins@;
                push_char(&mut ins, w[j]);
                proof {
                    assert(w@.subrange(j0 as int, j + 1) =~= w@.subrange(j0 as int, j as int).push(
                        w@[j as int],
                    ));
                    let r1 = edit_run(h@.skip(i as int), w@.skip(j + 1));
                    assert(edit_run(h@.skip(i as int), w@.skip(j as int)) == (r1.0, seq![w@[j as int]] + r1.1, r1.2, r1.3));
                    assert(ins0 + (seq![w@[j as int]] + r1.1) =~= ins@ + r1.1);
                }
                j += 1;
            } else {
                proof {
                    let r1 = edit_run(h@.skip(i + 1), w@.skip(j as int));
                    assert(edit_run(h@.skip(i as int), w@.skip(j as int)) == ((r1.0 + 1) as nat, r1.1, r1.2, r1.3));
                }
                i += 1;
            }
            first = false;
        }
        proof {
            assert(h@.skip(i as int).len() == n - i);
            assert(w@.skip(j as int).len() == m - j);
            if i < n && j < m {
                assert(h@.skip(i as int)[0] == h@[i as int]);
                assert(w@.skip(j as int)[0] == w@[j as int]);
            }
            assert(edit_run(h@.skip(i as int), w@.skip(j as int)).1 =~= Seq::<char>::empty());
            assert(run.1 =~= ins@);
        }
        let ghost old_hunks = hunks@;
        let hk = Hunk { at, del: i - at, ins };
        hunks.push(hk);
        proof {
            let hs = hunks@;
            assert(hunk_view(hs) =~= hunk_view(old_hunks) + seq![(at as int, (i - at) as nat, hk.ins@)]);
            assert(hs.drop_last() =~= old_hunks);
            assert(hs.last() == hk);
            let hi = h@.take(i as int);
            assert(hi.subrange(0, at as int) =~= h@.take(at as int));
            assert(hi.subrange(i as int, i as int) =~= Seq::<char>::empty());
            assert(w@.take(j as int) =~= w@.take(j0 as int) + w@.subrange(j0 as int, j as int));
            assert(apply_hunks(hi, hs) =~= apply_hunks(h@.take(at as int), old_hunks) + hk.ins@
                + Seq::<char>::empty());
            assert forall|k: int| 0 <= k < hs.len() implies #[trigger] hs[k].at + hs[k].del <= i by {
                if k < hs.len() - 1 {
                    assert(hs[k] == old_hunks[k]);
                }
            }
            assert forall|k: int| 0 <= k < hs.len() - 1 implies #[trigger] hs[k].at + hs[k].del
                < hs[k + 1].at && hs[k].at < hs[k + 1].at by {
                assert(hs[k] == old_hunks[k]);
                if k < hs.len() - 2 {
                    assert(hs[k + 1] == old_hunks[k + 1]);
                }
            }
            assert forall|k: int| 0 <= k < hs.len() implies #[trigger] hs[k].ins@.len() <= m by {
                if k < hs.len() - 1 {
                    assert(hs[k] == old_hunks[k]);
                }
            }
            assert forall|k: int| 0 <= k < hs.len() implies #[trigger] hs[k].del > 0
                || hs[k].ins@.len() > 0 by {
                if k < hs.len() - 1 {
                    assert(hs[k] == old_hunks[k]);
                }
            }
        }
    }
    proof {
        lemma_lcs_end(h@, w@, n as int, m as int);
        assert(h@.take(n as int) =~= h@);
        assert(w@.take(m as int) =~= w@);
        assert(h@.skip(n as int).len() == 0 && w@.skip(m as int).len() == 0);
        assert(hunk_view(hunks@) + greedy_hunks(h@.skip(n as int), w@.skip(m as int), n as int) =~= hunk_view(
            hunks@,
        ));
    }
    hunks
}

/// `h` placed into `s` (ordered by descending position) after every hunk
/// whose position is at least its own.
pub open spec fn insert_desc(s: Seq<Hunk>, h: Hunk) -> Seq<Hunk>
    decreases s.len(),
{
    if s.len() == 0 {
        seq![h]
    } else if s[0].at >= h.at {
        seq![s[0]] + insert_desc(s.drop_first(), h)
    } else {
        seq![h] + s
    }
}

/// The hunks sorted by descending position, hunks at the same position
/// keeping their order (a stable sort).
pub open spec fn sort_desc(hs: Seq<Hunk>) -> Seq<Hunk>
    decreases hs.len(),
{
    if hs.len() == 0 {
        seq![]
    } else {
        insert_desc(sort_desc(hs.drop_last()), hs.last())
    }
}

/// The operations for the hunks in the order given, starting with the
/// cursor at `cursor`, and the cursor afterwards.
pub open spec fn walk_from(order: Seq<Hunk>, cursor: int) -> (Seq<Op>, int)
    decreases order.len(),
{
    if order.len() == 0 {
        (seq![], cursor)
    } else {
        let (o1, c1) = hunk_ops(order[0], cursor);
        let (o2, c2) = walk_from(order.drop_first(), c1);
        (o1 + o2, c2)
    }
}

/// The plan for hunks in any order: they are carried out from the
/// rightmost position to the leftmost (hunks at one position in their
/// given order), then the cursor moves right to `want_len`.
pub open spec fn plan_sorted(hs: Seq<Hunk>, have_len: int, want_len: int) -> Seq<Op> {
    let (o, c) = walk_from(sort_desc(hs), have_len);
    if want_len > c {
        o.push(Op::Right((want_len - c) as usize))
    } else {
        o
    }
}

/// The first `k` hunks in reverse order.
pub open spec fn rev_prefix(hs: Seq<Hunk>, k: int) -> Seq<Hunk> {
    Seq::new(k as nat, |i: int| hs[k - 1 - i])
}

/// Inserting at the first hunk before `h`'s position.
proof fn lemma_insert_desc_at(s: Seq<Hunk>, h: Hunk, p: int)
    requires
        0 <= p <= s.len(),
        forall|i: int| 0 <= i < p ==> #[trigger] s[i].at >= h.at,
        p < s.len() ==> s[p].at < h.at,
    ensures
        insert_desc(s, h) == s.take(p) + seq![h] + s.skip(p),
    decreases s.len(),
{
    if s.len() == 0 {
        assert(s.take(p) + seq![h] + s.skip(p) =~= seq![h]);
    } else if p == 0 {
        assert(s.take(0) + seq![h] + s.skip(0) =~= seq![h] + s);
    } else {
        let t = s.drop_first();
        assert forall|i: int| 0 <= i < p - 1 implies #[trigger] t[i].at >= h.at by {
            assert(t[i] == s[i + 1]);
        }
        if p - 1 < t.len() {
            assert(t[p - 1] == s[p]);
        }
        lemma_insert_desc_at(t, h, p - 1);
        assert(s.take(p) + seq![h] + s.skip(p) =~= seq![s[0]] + (t.take(p - 1) + seq![h] + t.skip(p - 1)));
    }
}

/// Hunks in ascending order of position sort into reverse order.
proof fn lemma_sort_ascending(hs: Seq<Hunk>)
    requires
        forall|k: int| 0 <= k < hs.len() - 1 ==> #[trigger] hs[k].at < hs[k + 1].at,
    ensures
        sort_desc(hs) == rev_prefix(hs, hs.len() as int),
    decreases hs.len(),
{
    if hs.len() > 0 {
        let d = hs.drop_last();
        assert forall|k: int| 0 <= k < d.len() - 1 implies #[trigger] d[k].at < d[k + 1].at by {
            assert(d[k] == hs[k] && d[k + 1] == hs[k + 1]);
        }
        lemma_sort_ascending(d);
        let r = rev_prefix(d, d.len() as int);
        if r.len() > 0 {
            assert(r[0] == hs[hs.len() - 2]);
        }
        lemma_insert_desc_at(r, hs.last(), 0);
        assert(r.take(0) + seq![hs.last()] + r.skip(0) =~= rev_prefix(hs, hs.len() as int));
    }
}

/// Walking the first `k` hunks in reverse order is `plan_from`.
proof fn lemma_walk_reverse(hs: Seq<Hunk>, k: int, cursor: int)
    requires
        0 <= k <= hs.len(),
    ensures
        walk_from(rev_prefix(hs, k), cursor) == plan_from(hs, k, cursor),
    decreases k,
{
    if k > 0 {
        let r = rev_prefix(hs, k);
        assert(r[0] == hs[k - 1]);
        assert(r.drop_first() =~= rev_prefix(hs, k - 1));
        let (o1, c1) = hunk_ops(hs[k - 1], cursor);
        lemma_walk_reverse(hs, k - 1, c1);
    }
}

/// For hunks in ascending order of position, the plan of the sorted hunks
/// is `plan_ops`.
proof fn lemma_plan_sorted_ascending(hs: Seq<Hunk>, have_len: int, want_len: int)
    requires
        forall|k: int| 0 <= k < hs.len() - 1 ==> #[trigger] hs[k].at < hs[k + 1].at,
    ensures
        plan_sorted(hs, have_len, want_len) == plan_ops(hs, have_len, want_len),
{
    lemma_sort_ascending(hs);
    lemma_walk_reverse(hs, hs.len() as int, have_len);
}

/// Each hunk's deletion ends at a position that fits in `usize`.
pub open spec fn hunks_in_range(hs: Seq<Hunk>) -> bool {
    forall|k: int| 0 <= k < hs.len() ==> #[trigger] hs[k].at + hs[k].del <= usize::MAX
}

/// Turns hunks into cursor operations. The cursor starts at the end of the
/// field; the hunks are carried out from the rightmost to the leftmost, so
/// each hunk's position stays valid (edits to the right do not shift
/// positions to the left), and the cursor then moves back to the end.
fn plan(hunks: &[Hunk], have_len: usize, want_len: usize) -> (ops: Vec<Op>)
    requires
        hunks_in_range(hunks@),
        hunks_fit(hunks@),
    ensures
        ops@ == plan_sorted(hunks@, have_len as int, want_len as int),
{
    // The hunk indices, by descending position (stable).
    let mut order: Vec<usize> = Vec::new();
    let mut k: usize = 0;
    assert(hunks@.take(0) =~= Seq::<Hunk>::empty());
    while k < hunks.len()
        invariant
            k <= hunks.len(),
            order@.len() == k,
            forall|i: int| 0 <= i < order@.len() ==> #[trigger] order@[i] < hunks@.len(),
            order@.map_values(|j: usize| hunks@[j as int]) == sort_desc(hunks@.take(k as int)),
        decreases hunks.len() - k,
    {
        let ghost sorted = order@.map_values(|j: usize| hunks@[j as int]);
        let mut p: usize = 0;
        while p < order.len() && hunks[order[p]].at >= hunks[k].at
            invariant
                p <= order@.len(),
                k < hunks.len(),
                forall|i: int| 0 <= i < order@.len() ==> #[trigger] order@[i] < hunks@.len(),
                sorted == order@.map_values(|j: usize| hunks@[j as int]),
                forall|i: int| 0 <= i < p ==> #[trigger] sorted[i].at >= hunks@[k as int].at,
            decreases order.len() - p,
        {
            p += 1;
        }
        proof {
            lemma_insert_desc_at(sorted, hunks@[k as int], p as int);
            assert(hunks@.take(k + 1).drop_last() =~= hunks@.take(k as int));
        }
        order.insert(p, k);
        proof {
            assert(order@.map_values(|j: usize| hunks@[j as int]) =~= sorted.take(p as int) + seq![
                hunks@[k as int],
            ] + sorted.skip(p as int));
        }
        k += 1;
    }
    assert(hunks@.take(hunks.len() as int) =~= hunks@);
    let ghost sorted = sort_desc(hunks@);
    let mut ops: Vec<Op> = Vec::new();
    let mut cursor: usize = have_len;
    let mut i: usize = 0;
    let ghost whole = walk_from(sorted, have_len as int);
    assert(sorted.skip(0) =~= sorted);
    assert(ops@ + whole.0 =~= whole.0);
    while i < order.len()
        invariant
            i <= order@.len(),
            order@.len() == hunks@.len(),
            forall|t: int| 0 <= t < order@.len() ==> #[trigger] order@[t] < hunks@.len(),
            order@.map_values(|j: usize| hunks@[j as int]) == sorted,
            hunks_in_range(hunks@),
            hunks_fit(hunks@),
            whole == walk_from(sorted, have_len as int),
            whole.0 == ops@ + walk_from(sorted.skip(i as int), cursor as int).0,
            whole.1 == walk_from(sorted.skip(i as int), cursor as int).1,
        decreases order.len() - i,
    {
        let h = &hunks[order[i]];
        proof {
            assert(sorted[i as int] == hunks@[order@[i as int] as int]);
            assert(sorted.skip(i as int)[0] == sorted[i as int]);
            assert(sorted.skip(i as int).drop_first() =~= sorted.skip(i + 1));
        }
        let ghost before = ops@;
        let ghost c0 = cursor as int;
        let target = h.at + h.del;
        if cursor > target {
            ops.push(Op::Left(cursor - target));
        }
        cursor = target;
        if h.del > 0 {
            ops.push(Op::Back(h.del));
            cursor -= h.del;
        }
        let len = chars_of(h.ins.as_str()).len();
        if len > 0 {
            ops.push(Op::Type(h.ins.clone()));
            cursor += len;
        }
        proof {
            let (o1, c1) = hunk_ops(sorted[i as int], c0);
            assert(ops@ =~= before + o1);
            assert(cursor == c1);
            let (o2, c2) = walk_from(sorted.skip(i + 1), c1);
            assert(walk_from(sorted.skip(i as int), c0) == (o1 + o2, c2));
            assert(before + (o1 + o2) =~= ops@ + o2);
        }
        i += 1;
    }
    assert(sorted.skip(i as int).len() == 0);
    assert(ops@ + seq![] =~= ops@);
    if want_len > cursor {
        ops.push(Op::Right(want_len - cursor));
    }
    ops
}

/// `v` with `v[start..end]` replaced by `ins`.
fn splice_chars(v: &Vec<char>, start: usize, end: usize, ins: &Vec<char>) -> (out: Vec<char>)
    requires
        start <= end <= v.len(),
    ensures
        out@ == v@.subrange(0, start as int) + ins@ + v@.subrange(end as int, v.len() as int),
{
    let mut out: Vec<char> = Vec::new();
    let mut i: usize = 0;
    while i < start
        invariant
            i <= start <= end <= v.len(),
            out@ == v@.subrange(0, i as int),
        decreases start - i,
    {
        out.push(v[i]);
        i += 1;
        assert(out@ =~= v@.subrange(0, i as int));
    }
    let mut k: usize = 0;
    while k < ins.len()
        invariant
            k <= ins.len(),
            start <= end <= v.len(),
            out@ == v@.subrange(0, start as int) + ins@.take(k as int),
        decreases ins.len() - k,
    {
        out.push(ins[k]);
        k += 1;
        assert(out@ =~= v@.subrange(0, start as int) + ins@.take(k as int));
    }
    let mut e: usize = end;
    while e < v.len()
        invariant
            start <= end <= e <= v.len(),
            out@ == v@.subrange(0, start as int) + ins@ + v@.subrange(end as int, e as int),
        decreases v.len() - e,
    {
        out.push(v[e]);
        e += 1;
        assert(out@ =~= v@.subrange(0, start as int) + ins@ + v@.subrange(end as int, e as int));
    }
    out
}

/// Total number of characters the `Type` operations type.
pub open spec fn typed_total(ops: Seq<Op>) -> nat
    decreases ops.len(),
{
    if ops.len() == 0 {
        0
    } else {
        typed_total(ops.drop_last()) + match ops.last() {
            Op::Type(t) => t@.len(),
            _ => 0,
        }
    }
}

/// Running operations never grows the field by more than they type, and
/// keeps the cursor inside it.
proof fn lemma_run_bounds(s: (Seq<char>, int), ops: Seq<Op>)
    requires
        0 <= s.1 <= s.0.len(),
    ensures
        0 <= run_ops(s, ops).1 <= run_ops(s, ops).0.len(),
        run_ops(s, ops).0.len() <= s.0.len() + typed_total(ops),
    decreases ops.len(),
{
    if ops.len() > 0 {
        lemma_run_bounds(s, ops.drop_last());
    }
}

/// Total number of characters the `Back` operations delete.
pub open spec fn backed_total(ops: Seq<Op>) -> nat
    decreases ops.len(),
{
    if ops.len() == 0 {
        0
    } else {
        backed_total(ops.drop_last()) + match ops.last() {
            Op::Back(n) => n as nat,
            _ => 0,
        }
    }
}

proof fn lemma_totals_concat(a: Seq<Op>, b: Seq<Op>)
    ensures
        typed_total(a + b) == typed_total(a) + typed_total(b),
        backed_total(a + b) == backed_total(a) + backed_total(b),
    decreases b.len(),
{
    if b.len() == 0 {
        assert(a + b =~= a);
    } else {
        assert((a + b).drop_last() =~= a + b.drop_last());
        lemma_totals_concat(a, b.drop_last());
    }
}

proof fn lemma_hunk_totals(h: Hunk, c: int)
    ensures
        typed_total(hunk_ops(h, c).0) == h.ins@.len(),
        backed_total(hunk_ops(h, c).0) == h.del,
{
    let target = h.at + h.del;
    let left = if c > target {
        seq![Op::Left((c - target) as usize)]
    } else {
        seq![]
    };
    let back = if h.del > 0 {
        seq![Op::Back(h.del)]
    } else {
        seq![]
    };
    let typ = if h.ins@.len() > 0 {
        seq![Op::Type(h.ins)]
    } else {
        seq![]
    };
    lemma_totals_concat(left, back);
    lemma_totals_concat(left + back, typ);
    if c > target {
        assert(left.drop_last() =~= Seq::<Op>::empty());
        assert(typed_total(left.drop_last()) == 0 && backed_total(left.drop_last()) == 0);
    }
    assert(typed_total(left) == 0 && backed_total(left) == 0);
    if h.del > 0 {
        assert(back.drop_last() =~= Seq::<Op>::empty());
        assert(typed_total(back.drop_last()) == 0 && backed_total(back.drop_last()) == 0);
    }
    assert(typed_total(back) == 0 && backed_total(back) == h.del);
    if h.ins@.len() > 0 {
        assert(typ.drop_last() =~= Seq::<Op>::empty());
        assert(typed_total(typ.drop_last()) == 0 && backed_total(typ.drop_last()) == 0);
    }
    assert(typed_total(typ) == h.ins@.len() && backed_total(typ) == 0);
}

proof fn lemma_plan_from_totals(hs: Seq<Hunk>, k: int, c: int)
    requires
        0 <= k <= hs.len(),
    ensures
        typed_total(plan_from(hs, k, c).0) == inserted_total(hs.take(k)),
        backed_total(plan_from(hs, k, c).0) == deleted_total(hs.take(k)),
    decreases k,
{
    if k == 0 {
        assert(hs.take(0) =~= Seq::<Hunk>::empty());
    } else {
        let (o1, c1) = hunk_ops(hs[k - 1], c);
        lemma_hunk_totals(hs[k - 1], c);
        lemma_plan_from_totals(hs, k - 1, c1);
        lemma_totals_concat(o1, plan_from(hs, k - 1, c1).0);
        assert(hs.take(k).drop_last() =~= hs.take(k - 1));
    }
}

/// The plan types exactly the hunks' insertions and deletes exactly the
/// hunks' deletions.
proof fn lemma_plan_totals(hs: Seq<Hunk>, n: int, m: int)
    ensures
        typed_total(plan_ops(hs, n, m)) == inserted_total(hs),
        backed_total(plan_ops(hs, n, m)) == deleted_total(hs),
{
    lemma_plan_from_totals(hs, hs.len() as int, n);
    assert(hs.take(hs.len() as int) =~= hs);
    let (o, c) = plan_from(hs, hs.len() as int, n);
    if m > c {
        assert(o.push(Op::Right((m - c) as usize)).drop_last() =~= o);
    }
}

/// Reconciling types only the characters the field lacks and deletes only
/// those it must lose: as many as a longest common subsequence leaves out
/// of each text, the fewest any edit can.
pub proof fn lemma_reconcile_minimal(typed: Seq<char>, want: Seq<char>, ops: Seq<Op>)
    requires
        is_reconcile(typed, want, ops),
    ensures
        typed_total(ops) == want.len() - lcs_len(typed, want),
        backed_total(ops) == typed.len() - lcs_len(typed, want),
{
    let hs = choose|hs: Seq<Hunk>|
        {
            &&& hunks_separated(hs, typed.len() as int)
            &&& hunks_fit(hs)
            &&& apply_hunks(typed, hs) == want
            &&& deleted_total(hs) == typed.len() - lcs_len(typed, want)
            &&& inserted_total(hs) == want.len() - lcs_len(typed, want)
            &&& hunk_view(hs) == greedy_hunks(typed, want, 0)
            &&& ops == plan_ops(hs, typed.len() as int, want.len() as int)
        };
    lemma_plan_totals(hs, typed.len() as int, want.len() as int);
}

/// The characters a reconcile types fit with the field.
proof fn lemma_plan_typed_total(typed: Seq<char>, want: Seq<char>, ops: Seq<Op>)
    requires
        is_reconcile(typed, want, ops),
    ensures
        typed_total(ops) <= want.len(),
{
    lemma_reconcile_minimal(typed, want, ops);
}

/// Runs cursor operations on an in-memory field whose cursor starts at its
/// end.
pub fn apply_ops_to_string(field: &mut String, ops: &[Op])
    requires
        old(field)@.len() + typed_total(ops@) <= usize::MAX,
    ensures
        final(field)@ == field_after(old(field)@, ops@),
{
    let mut chars = chars_of(field.as_str());
    let mut cur: usize = chars.len();
    let ghost start_state = (chars@, cur as int);
    let mut k: usize = 0;
    assert(ops@.take(0) =~= Seq::<Op>::empty());
    while k < ops.len()
        invariant
            k <= ops.len(),
            start_state == (old(field)@, old(field)@.len() as int),
            old(field)@.len() + typed_total(ops@) <= usize::MAX,
            (chars@, cur as int) == run_ops(start_state, ops@.take(k as int)),
        decreases ops.len() - k,
    {
        proof {
            assert(ops@.take(k + 1).drop_last() =~= ops@.take(k as int));
            lemma_run_bounds(start_state, ops@.take(k as int));
            lemma_typed_total_prefix(ops@, k as int);
        }
        match &ops[k] {
            Op::Left(n) => {
                cur = if cur >= *n {
                    cur - *n
                } else {
                    0
                };
            },
            Op::Right(n) => {
                cur = if *n <= chars.len() - cur {
                    cur + *n
                } else {
                    chars.len()
                };
            },
            Op::Back(n) => {
                let start = if cur >= *n {
                    cur - *n
                } else {
                    0
                };
                let empty: Vec<char> = Vec::new();
                chars = splice_chars(&chars, start, cur, &empty);
                assert(chars@ =~= run_ops(start_state, ops@.take(k as int)).0.subrange(0, start as int)
                    + run_ops(start_state, ops@.take(k as int)).0.subrange(
                    cur as int,
                    run_ops(start_state, ops@.take(k as int)).0.len() as int,
                ));
                cur = start;
            },
            Op::Type(t) => {
                let ins = chars_of(t.as_str());
                chars = splice_chars(&chars, cur, cur, &ins);
                cur = cur + ins.len();
            },
        }
        k += 1;
    }
    assert(ops@.take(ops.len() as int) =~= ops@);
    *field = string_of(&chars);
}

/// The typed total of a prefix never exceeds the whole.
proof fn lemma_typed_total_prefix(ops: Seq<Op>, k: int)
    requires
        0 <= k < ops.len(),
    ensures
        typed_total(ops.take(k + 1)) <= typed_total(ops),
        typed_total(ops.take(k + 1)) == typed_total(ops.take(k)) + match ops[k] {
            Op::Type(t) => t@.len(),
            _ => 0,
        },
    decreases ops.len(),
{
    assert(ops.take(k + 1).drop_last() =~= ops.take(k));
    if k + 1 < ops.len() {
        assert(ops.drop_last().take(k + 1) =~= ops.take(k + 1));
        assert(ops.drop_last().take(k) =~= ops.take(k));
        lemma_typed_total_prefix(ops.drop_last(), k);
    } else {
        assert(ops.take(k + 1) =~= ops);
    }
}

/// `ops` is what reconciling `typed` toward `want` yields: the plan of the
/// diff's hunks, which are the runs of edits of the walk from `typed` to
/// `want` and keep a longest common subsequence of the two texts.
pub open spec fn is_reconcile(typed: Seq<char>, want: Seq<char>, ops: Seq<Op>) -> bool {
    exists|hs: Seq<Hunk>|
        {
            &&& hunks_separated(hs, typed.len() as int)
            &&& hunks_fit(hs)
            &&& apply_hunks(typed, hs) == want
            &&& deleted_total(hs) == typed.len() - lcs_len(typed, want)
            &&& inserted_total(hs) == want.len() - lcs_len(typed, want)
            &&& hunk_view(hs) == greedy_hunks(typed, want, 0)
            &&& ops == plan_ops(hs, typed.len() as int, want.len() as int)
        }
}

/// Reconciling a field toward `want` and carrying out the operations leaves
/// exactly `want` in the field, whatever it held before.
pub proof fn lemma_reconcile_round_trip(typed: Seq<char>, want: Seq<char>, ops: Seq<Op>)
    requires
        is_reconcile(typed, want, ops),
        typed.len() <= usize::MAX,
        want.len() <= usize::MAX,
    ensures
        field_after(typed, ops) == want,
{
    let hs = choose|hs: Seq<Hunk>|
        {
            &&& hunks_separated(hs, typed.len() as int)
            &&& hunks_fit(hs)
            &&& apply_hunks(typed, hs) == want
            &&& deleted_total(hs) == typed.len() - lcs_len(typed, want)
            &&& inserted_total(hs) == want.len() - lcs_len(typed, want)
            &&& hunk_view(hs) == greedy_hunks(typed, want, 0)
            &&& ops == plan_ops(hs, typed.len() as int, want.len() as int)
        };
    lemma_plan_applies(hs, typed, want.len() as int);
}

/// Reconciles the field (currently `typed`, cursor at its end) toward
/// `want`: the cursor operations to run.
pub fn reconcile(typed: &str, want: &str) -> (ops: Vec<Op>)
    requires
        typed@.len() + want@.len() <= usize::MAX,
        typed@.len() <= u32::MAX || want@.len() <= u32::MAX,
    ensures
        is_reconcile(typed@, want@, ops@),
        field_after(typed@, ops@) == want@,
        typed_total(ops@) == want@.len() - lcs_len(typed@, want@),
        backed_total(ops@) == typed@.len() - lcs_len(typed@, want@),
{
    let hunks = diff(typed, want);
    let have_len = chars_of(typed).len();
    let want_len = chars_of(want).len();
    proof {
        let hs = hunks@;
        assert(hunks_fit(hs));
        assert(hunks_in_range(hs));
    }
    let ops = plan(hunks.as_slice(), have_len, want_len);
    proof {
        let hs = hunks@;
        lemma_plan_sorted_ascending(hs, have_len as int, want_len as int);
        lemma_reconcile_round_trip(typed@, want@, ops@);
        lemma_reconcile_minimal(typed@, want@, ops@);
    }
    ops
}

// ---------------------------------------------------------------------------
// Word-level comparison of transcripts
// ---------------------------------------------------------------------------

/// A word reduced for comparison: its alphanumeric characters, lowercased.
pub open spec fn normalize_word(w: Seq<char>) -> Seq<char>
    decreases w.len(),
{
    if w.len() == 0 {
        seq![]
    } else {
        normalize_word(w.drop_last()) + if spec_is_alphanumeric(w.last()) {
            spec_to_lowercase(w.last())
        } else {
            seq![]
        }
    }
}

/// The reduced words, dropping those that reduce to nothing.
pub open spec fn normalized_words(ws: Seq<Seq<char>>) -> Seq<Seq<char>>
    decreases ws.len(),
{
    if ws.len() == 0 {
        seq![]
    } else {
        let r = normalized_words(ws.drop_last());
        let n = normalize_word(ws.last());
        if n.len() > 0 {
            r.push(n)
        } else {
            r
        }
    }
}

/// The comparable tokens of a transcript.
pub open spec fn comparable_words(text: Seq<char>) -> Seq<Seq<char>> {
    normalized_words(split_ws(text))
}

/// A word with its non-alphanumeric characters dropped and the rest
/// lowercased.
fn normalize(w: &Vec<char>) -> (out: Vec<char>)
    ensures
        out@ == normalize_word(w@),
{
    let mut out: Vec<char> = Vec::new();
    let mut k: usize = 0;
    assert(w@.take(0) =~= Seq::<char>::empty());
    while k < w.len()
        invariant
            k <= w.len(),
            out@ == normalize_word(w@.take(k as int)),
        decreases w.len() - k,
    {
        assert(w@.take(k + 1).drop_last() =~= w@.take(k as int));
        let c = w[k];
        if is_alphanumeric(c) {
            let low = to_lowercase(c);
            let mut i: usize = 0;
            let ghost before = out@;
            while i < low.len()
                invariant
                    i <= low.len(),
                    out@ == before + low@.take(i as int),
                decreases low.len() - i,
            {
                out.push(low[i]);
                i += 1;
                assert(out@ =~= before + low@.take(i as int));
            }
            assert(low@.take(low.len() as int) =~= low@);
        } else {
            assert(out@ =~= out@ + Seq::<char>::empty());
        }
        k += 1;
    }
    assert(w@.take(w.len() as int) =~= w@);
    out
}

/// Splits text into comparable tokens: whitespace-separated words,
/// lowercased, punctuation stripped, empty tokens dropped.
pub fn words_lower(text: &str) -> (out: Vec<String>)
    ensures
        views(out@) == comparable_words(text@),
{
    let cs = chars_of(text);
    let ws = split_whitespace(&cs);
    let mut out: Vec<String> = Vec::new();
    let mut k: usize = 0;
    assert(seqs_of(ws@).take(0) =~= Seq::<Seq<char>>::empty());
    while k < ws.len()
        invariant
            k <= ws.len(),
            seqs_of(ws@) == split_ws(cs@),
            cs@ == text@,
            views(out@) == normalized_words(seqs_of(ws@).take(k as int)),
        decreases ws.len() - k,
    {
        assert(seqs_of(ws@).take(k + 1).drop_last() =~= seqs_of(ws@).take(k as int));
        assert(seqs_of(ws@).take(k + 1).last() == ws@[k as int]@);
        let n = normalize(&ws[k]);
        if n.len() > 0 {
            let ghost before = out@;
            let sn = string_of(&n);
            out.push(sn);
            assert(views(out@) =~= views(before).push(n@));
        }
        k += 1;
    }
    assert(seqs_of(ws@).take(ws.len() as int) =~= seqs_of(ws@));
    out
}

/// The entries of a word diff whose tag is not `skip`, as words.
pub open spec fn diff_side(d: Seq<(char, String)>, skip: char) -> Seq<Seq<char>>
    decreases d.len(),
{
    if d.len() == 0 {
        seq![]
    } else {
        let r = diff_side(d.drop_last(), skip);
        if d.last().0 == skip {
            r
        } else {
            r.push(d.last().1@)
        }
    }
}

/// The number of entries tagged as kept (`' '`).
pub open spec fn kept_count(d: Seq<(char, String)>) -> nat
    decreases d.len(),
{
    if d.len() == 0 {
        0
    } else {
        kept_count(d.drop_last()) + if d.last().0 == ' ' {
            1nat
        } else {
            0nat
        }
    }
}

/// Every entry is tagged `' '` (in both), `'-'` (only in the reference) or
/// `'+'` (only in the candidate).
pub open spec fn diff_tags_ok(d: Seq<(char, String)>) -> bool {
    forall|k: int| 0 <= k < d.len() ==> #[trigger] d[k].0 == ' ' || d[k].0 == '-' || d[k].0 == '+'
}

proof fn lemma_diff_push(d: Seq<(char, String)>, e: (char, String))
    ensures
        diff_side(d.push(e), '+') == if e.0 == '+' {
            diff_side(d, '+')
        } else {
            diff_side(d, '+').push(e.1@)
        },
        diff_side(d.push(e), '-') == if e.0 == '-' {
            diff_side(d, '-')
        } else {
            diff_side(d, '-').push(e.1@)
        },
        kept_count(d.push(e)) == kept_count(d) + if e.0 == ' ' {
            1nat
        } else {
            0nat
        },
{
    assert(d.push(e).drop_last() =~= d);
}

/// The word diff the walk over both word lists gives: a shared first word
/// is kept (`' '`); otherwise the reference's word is dropped (`'-'`) when
/// that leaves a longest common subsequence of what remains at least as
/// long as taking the candidate's word would, which is inserted (`'+'`)
/// otherwise; what is left of either list at the end is dropped or
/// inserted.
pub open spec fn word_walk(a: Seq<Seq<char>>, b: Seq<Seq<char>>) -> Seq<(char, Seq<char>)>
    decreases a.len() + b.len(),
{
    if a.len() == 0 {
        b.map_values(|w: Seq<char>| ('+', w))
    } else if b.len() == 0 {
        a.map_values(|w: Seq<char>| ('-', w))
    } else if a[0] == b[0] {
        seq![(' ', a[0])] + word_walk(a.drop_first(), b.drop_first())
    } else if lcs_len(a.drop_first(), b) >= lcs_len(a, b.drop_first()) {
        seq![('-', a[0])] + word_walk(a.drop_first(), b)
    } else {
        seq![('+', b[0])] + word_walk(a, b.drop_first())
    }
}

/// The entries of a word diff, each word by its characters.
pub open spec fn entry_views(d: Seq<(char, String)>) -> Seq<(char, Seq<char>)> {
    d.map_values(|e: (char, String)| (e.0, e.1@))
}

/// Longest-common-subsequence word diff of reference `a` and candidate
/// `b`. Each entry is tagged `' '` (same), `'-'` (in `a` only, dropped) or
/// `'+'` (in `b` only, inserted); the kept words form a longest common
/// subsequence.
pub fn word_diff(a: &[String], b: &[String]) -> (out: Vec<(char, String)>)
    ensures
        diff_tags_ok(out@),
        diff_side(out@, '+') == views(a@),
        diff_side(out@, '-') == views(b@),
        kept_count(out@) == lcs_len(views(a@), views(b@)),
        entry_views(out@) == word_walk(views(a@), views(b@)),
{
    let n = a.len();
    let m = b.len();
    let lcs = string_lcs_table(a, b);
    let ghost sa = views(a@);
    let ghost sb = views(b@);
    let ghost total = lcs_len(sa, sb);
    let mut out: Vec<(char, String)> = Vec::new();
    let mut i: usize = 0;
    let mut j: usize = 0;
    assert(sa.skip(0) =~= sa);
    assert(sb.skip(0) =~= sb);
    assert(sa.take(0) =~= Seq::<Seq<char>>::empty());
    assert(sb.take(0) =~= Seq::<Seq<char>>::empty());
    while i < n && j < m
        invariant
            n == a.len(),
            m == b.len(),
            sa == views(a@),
            sb == views(b@),
            total == lcs_len(sa, sb),
            lcs_table_ok(lcs@, sa, sb, |x: usize| usize_int(x)),
            i <= n,
            j <= m,
            diff_tags_ok(out@),
            diff_side(out@, '+') == sa.take(i as int),
            diff_side(out@, '-') == sb.take(j as int),
            kept_count(out@) + lcs_len(sa.skip(i as int), sb.skip(j as int)) == total,
            entry_views(out@) + word_walk(sa.skip(i as int), sb.skip(j as int)) == word_walk(sa, sb),
        decreases n - i + m - j,
    {
        proof {
            assert(sa.skip(i as int).drop_first() =~= sa.skip(i + 1));
            assert(sb.skip(j as int).drop_first() =~= sb.skip(j + 1));
            lemma_lcs_step(sa, sb, i as int, j as int);
            assert(lcs@[i as int]@[j + 1] == lcs_len(sa.skip(i as int), sb.skip(j + 1)));
            assert(lcs@[i + 1]@[j as int] == lcs_len(sa.skip(i + 1), sb.skip(j as int)));
            assert(sa.take(i + 1) =~= sa.take(i as int).push(sa[i as int]));
            assert(sb.take(j + 1) =~= sb.take(j as int).push(sb[j as int]));
            assert(sa[i as int] == a@[i as int]@);
            assert(sb[j as int] == b@[j as int]@);
        }
        let ghost before = out@;
        let ghost rest = word_walk(sa.skip(i as int), sb.skip(j as int));
        if a[i] == b[j] {
            let e = (' ', a[i].clone());
            out.push(e);
            proof {
                lemma_diff_push(before, e);
                assert(rest == seq![(' ', sa[i as int])] + word_walk(sa.skip(i + 1), sb.skip(j + 1)));
                assert(entry_views(out@) =~= entry_views(before) + seq![(' ', sa[i as int])]);
            }
            i += 1;
            j += 1;
        } else if lcs[i + 1][j] >= lcs[i][j + 1] {
            let e = ('-', a[i].clone());
            out.push(e);
            proof {
                lemma_diff_push(before, e);
                assert(rest == seq![('-', sa[i as int])] + word_walk(sa.skip(i + 1), sb.skip(j as int)));
                assert(entry_views(out@) =~= entry_views(before) + seq![('-', sa[i as int])]);
            }
            i += 1;
        } else {
            let e = ('+', b[j].clone());
            out.push(e);
            proof {
                lemma_diff_push(before, e);
                assert(rest == seq![('+', sb[j as int])] + word_walk(sa.skip(i as int), sb.skip(j + 1)));
                assert(entry_views(out@) =~= entry_views(before) + seq![('+', sb[j as int])]);
            }
            j += 1;
        }
        assert(diff_tags_ok(out@)) by {
            assert forall|k: int| 0 <= k < out@.len() implies #[trigger] out@[k].0 == ' ' || out@[k].0
                == '-' || out@[k].0 == '+' by {
                if k < before.len() {
                    assert(out@[k] == before[k]);
                }
            }
        }
    }
    proof {
        lemma_lcs_end(sa, sb, i as int, j as int);
    }
    while i < n
        invariant
            n == a.len(),
            sa == views(a@),
            sb == views(b@),
            i <= n,
            diff_tags_ok(out@),
            diff_side(out@, '+') == sa.take(i as int),
            diff_side(out@, '-') == sb.take(j as int),
            kept_count(out@) == total,
            i < n ==> j == m,
            m == b.len(),
            j <= m,
            entry_views(out@) + word_walk(sa.skip(i as int), sb.skip(j as int)) == word_walk(sa, sb),
        decreases n - i,
    {
        let ghost before = out@;
        let e = ('-', a[i].clone());
        out.push(e);
        proof {
            let ta = sa.skip(i as int);
            assert(sb.skip(j as int).len() == 0);
            assert(word_walk(ta, sb.skip(j as int)) == ta.map_values(|w: Seq<char>| ('-', w)));
            let tb = sa.skip(i + 1);
            assert(ta.drop_first() =~= tb);
            assert(word_walk(tb, sb.skip(j as int)) =~= tb.map_values(|w: Seq<char>| ('-', w)));
            assert(ta.map_values(|w: Seq<char>| ('-', w)) =~= seq![('-', sa[i as int])] + tb.map_values(
                |w: Seq<char>| ('-', w),
            ));
            assert(entry_views(out@) =~= entry_views(before) + seq![('-', sa[i as int])]);
            lemma_diff_push(before, e);
            assert(sa.take(i + 1) =~= sa.take(i as int).push(sa[i as int]));
            assert forall|k: int| 0 <= k < out@.len() implies #[trigger] out@[k].0 == ' ' || out@[k].0
                == '-' || out@[k].0 == '+' by {
                if k < before.len() {
                    assert(out@[k] == before[k]);
                }
            }
        }
        i += 1;
    }
    while j < m
        invariant
            m == b.len(),
            n == a.len(),
            i == n,
            sa == views(a@),
            sb == views(b@),
            j <= m,
            diff_tags_ok(out@),
            diff_side(out@, '+') == sa.take(i as int),
            diff_side(out@, '-') == sb.take(j as int),
            kept_count(out@) == total,
            entry_views(out@) + word_walk(sa.skip(i as int), sb.skip(j as int)) == word_walk(sa, sb),
        decreases m - j,
    {
        let ghost before = out@;
        let e = ('+', b[j].clone());
        out.push(e);
        proof {
            let tb = sb.skip(j as int);
            let tc = sb.skip(j + 1);
            assert(sa.skip(i as int).len() == 0);
            assert(tb.drop_first() =~= tc);
            assert(tb.map_values(|w: Seq<char>| ('+', w)) =~= seq![('+', sb[j as int])] + tc.map_values(
                |w: Seq<char>| ('+', w),
            ));
            assert(entry_views(out@) =~= entry_views(before) + seq![('+', sb[j as int])]);
            lemma_diff_push(before, e);
            assert(sb.take(j + 1) =~= sb.take(j as int).push(sb[j as int]));
            assert forall|k: int| 0 <= k < out@.len() implies #[trigger] out@[k].0 == ' ' || out@[k].0
                == '-' || out@[k].0 == '+' by {
                if k < before.len() {
                    assert(out@[k] == before[k]);
                }
            }
        }
        j += 1;
    }
    assert(sa.take(n as int) =~= sa);
    assert(sb.take(m as int) =~= sb);
    proof {
        let e = sa.skip(n as int);
        let f = sb.skip(m as int);
        assert(e.len() == 0 && f.len() == 0);
        assert(word_walk(e, f) =~= Seq::<(char, Seq<char>)>::empty());
        assert(entry_views(out@) + word_walk(e, f) =~= entry_views(out@));
    }
    out
}

// ---------------------------------------------------------------------------
// Audio frames
// ---------------------------------------------------------------------------

/// The signed 16-bit sample stored little-endian in `lo`, `hi`.
pub open spec fn le_i16(lo: u8, hi: u8) -> int {
    let u = lo as int + 256 * hi as int;
    if u >= 32768 {
        u - 65536
    } else {
        u
    }
}

/// The whole little-endian 16-bit frames of `b`, in order; a trailing odd
/// byte is not part of any frame.
pub open spec fn frames(b: Seq<u8>) -> Seq<i16>
    decreases b.len(),
{
    if b.len() < 2 {
        seq![]
    } else {
        seq![le_i16(b[0], b[1]) as i16] + frames(b.skip(2))
    }
}

/// The byte left over after the whole frames of `b`, if its length is odd.
pub open spec fn leftover(b: Seq<u8>) -> Option<u8> {
    if b.len() % 2 == 1 {
        Some(b.last())
    } else {
        None
    }
}

proof fn lemma_frames_push(b: Seq<u8>, k: int)
    requires
        0 <= k,
        2 * k + 2 <= b.len(),
    ensures
        frames(b.take(2 * k + 2)) == frames(b.take(2 * k)).push(le_i16(b[2 * k], b[2 * k + 1]) as i16),
    decreases k,
{
    let t = b.take(2 * k + 2);
    if k == 0 {
        assert(t.skip(2) =~= Seq::<u8>::empty());
        assert(b.take(0) =~= Seq::<u8>::empty());
    } else {
        assert(t.skip(2) =~= b.skip(2).take(2 * (k - 1) + 2));
        assert(b.take(2 * k).skip(2) =~= b.skip(2).take(2 * (k - 1)));
        lemma_frames_push(b.skip(2), k - 1);
        assert(b.skip(2)[2 * (k - 1)] == b[2 * k]);
        assert(b.skip(2)[2 * (k - 1) + 1] == b[2 * k + 1]);
    }
}

/// Frames of an even-length prefix followed by more bytes.
pub proof fn lemma_frames_concat(a: Seq<u8>, b: Seq<u8>)
    requires
        a.len() % 2 == 0,
    ensures
        frames(a + b) == frames(a) + frames(b),
    decreases a.len(),
{
    if a.len() == 0 {
        assert(a + b =~= b);
    } else {
        assert((a + b).skip(2) =~= a.skip(2) + b);
        lemma_frames_concat(a.skip(2), b);
    }
}

/// Splits little-endian 16-bit PCM into whole samples and the leftover
/// trailing byte (when the input has an odd length).
pub fn pcm_samples(bytes: &[u8]) -> (r: (Vec<i16>, Option<u8>))
    ensures
        r.0@ == frames(bytes@),
        r.1 == leftover(bytes@),
{
    let mut out: Vec<i16> = Vec::new();
    let mut k: usize = 0;
    let n = bytes.len() / 2;
    assert(bytes@.take(0) =~= Seq::<u8>::empty());
    while k < n
        invariant
            k <= n,
            n == bytes.len() / 2,
            out@ == frames(bytes@.take(2 * k)),
        decreases n - k,
    {
        let lo = bytes[2 * k];
        let hi = bytes[2 * k + 1];
        let u: u32 = lo as u32 + 256 * (hi as u32);
        let v: i16 = if u >= 32768 {
            (u as i32 - 65536) as i16
        } else {
            u as i16
        };
        proof {
            lemma_frames_push(bytes@, k as int);
        }
        out.push(v);
        k += 1;
    }
    proof {
        if bytes.len() % 2 == 0 {
            assert(bytes@.take(2 * n) =~= bytes@);
        } else {
            assert(bytes@ =~= bytes@.take(2 * n) + seq![bytes@.last()]);
            lemma_frames_concat(bytes@.take(2 * n), seq![bytes@.last()]);
        }
    }
    let left = if bytes.len() % 2 == 1 {
        Some(bytes[bytes.len() - 1])
    } else {
        None
    };
    (out, left)
}

/// A PCM stream read in pieces: the byte carried over between reads.
pub struct PcmCarry {
    pub carry: Option<u8>,
}

/// The carried byte as a sequence.
pub open spec fn carried(c: Option<u8>) -> Seq<u8> {
    match c {
        Some(b) => seq![b],
        None => seq![],
    }
}

impl PcmCarry {
    pub fn new() -> (p: Self)
        ensures
            p.carry is None,
    {
        PcmCarry { carry: None }
    }

    /// The samples completed by the next piece of the stream; an odd
    /// trailing byte is kept for the next piece.
    pub fn feed(&mut self, bytes: &[u8]) -> (samples: Vec<i16>)
        ensures
            samples@ == frames(carried(old(self).carry) + bytes@),
            final(self).carry == leftover(carried(old(self).carry) + bytes@),
    {
        let mut buf: Vec<u8> = Vec::new();
        match self.carry {
            Some(b) => buf.push(b),
            None => {},
        }
        let mut k: usize = 0;
        let ghost start = buf@;
        assert(start =~= carried(self.carry));
        while k < bytes.len()
            invariant
                k <= bytes.len(),
                buf@ == start + bytes@.take(k as int),
            decreases bytes.len() - k,
        {
            buf.push(bytes[k]);
            k += 1;
            assert(buf@ =~= start + bytes@.take(k as int));
        }
        assert(bytes@.take(bytes.len() as int) =~= bytes@);
        let (samples, left) = pcm_samples(buf.as_slice());
        self.carry = left;
        samples
    }
}

/// Reading a stream in two pieces gives the same samples, and carries the
/// same byte, as reading it whole: no sample is lost or split across reads.
pub proof fn lemma_pcm_pieces(c: Option<u8>, b1: Seq<u8>, b2: Seq<u8>)
    ensures
        frames(carried(c) + b1) + frames(carried(leftover(carried(c) + b1)) + b2) == frames(carried(c) + b1 + b2),
        leftover(carried(leftover(carried(c) + b1)) + b2) == leftover(carried(c) + b1 + b2),
{
    let s1 = carried(c) + b1;
    let l = carried(leftover(s1));
    if s1.len() % 2 == 0 {
        assert(l =~= Seq::<u8>::empty());
        assert(l + b2 =~= b2);
        lemma_frames_concat(s1, b2);
        assert(s1 + b2 =~= carried(c) + b1 + b2);
    } else {
        let e = s1.drop_last();
        assert(s1 =~= e + l);
        assert(s1 + b2 =~= e + (l + b2));
        lemma_frames_concat(e, l);
        lemma_frames_concat(e, l + b2);
        assert(frames(l) =~= Seq::<i16>::empty());
        assert(e + l =~= s1);
        assert(s1 + b2 =~= carried(c) + b1 + b2);
        assert(e + Seq::<u8>::empty() =~= e);
        assert(frames(e + l) =~= frames(e) + frames(l));
        if b2.len() > 0 {
            assert((l + b2).last() == (s1 + b2).last());
        } else {
            assert(l + b2 =~= l);
            assert(s1 + b2 =~= s1);
        }
    }
}

// ---------------------------------------------------------------------------
// The typist, the decoder and replay
// ---------------------------------------------------------------------------

/// The key a cursor operation presses, and how many times; `Type` presses
/// the keys of its text instead.
pub open spec fn op_key(op: Op) -> Option<(Seq<char>, usize)> {
    match op {
        Op::Left(n) => Some(("Left"@, n)),
        Op::Right(n) => Some(("Right"@, n)),
        Op::Back(n) => Some(("BackSpace"@, n)),
        Op::Type(_) => None,
    }
}

/// The key to press for a cursor operation, and how many times.
pub fn key_for(op: &Op) -> (r: Option<(String, usize)>)
    ensures
        match r {
            Some((k, n)) => op_key(*op) == Some((k@, n)),
            None => op_key(*op) is None,
        },
{
    match op {
        Op::Left(n) => Some((string_from("Left"), *n)),
        Op::Right(n) => Some((string_from("Right"), *n)),
        Op::Back(n) => Some((string_from("BackSpace"), *n)),
        Op::Type(_) => None,
    }
}

/// The typist's model of the field.
pub struct Typist {
    pub typed: String,
}

impl Typist {
    pub fn new() -> (t: Self)
        ensures
            t.typed@ == Seq::<char>::empty(),
    {
        Typist { typed: String::new() }
    }

    /// Takes the decodes received since the last edit (at least one),
    /// keeps only the latest, and returns the edit that brings the field
    /// to it, or nothing when the field already holds it.
    pub fn step(&mut self, pending: &Vec<String>) -> (ops: Option<Vec<Op>>)
        requires
            pending@.len() > 0,
            old(self).typed@.len() + pending@.last()@.len() <= usize::MAX,
            old(self).typed@.len() <= u32::MAX || pending@.last()@.len() <= u32::MAX,
        ensures
            final(self).typed@ == pending@.last()@,
            match ops {
                None => old(self).typed@ == pending@.last()@,
                Some(o) => old(self).typed@ != pending@.last()@ && is_reconcile(
                    old(self).typed@,
                    pending@.last()@,
                    o@,
                ) && field_after(old(self).typed@, o@) == pending@.last()@,
            },
    {
        let want = &pending[pending.len() - 1];
        if *want == self.typed {
            return None;
        }
        let ops = reconcile(self.typed.as_str(), want.as_str());
        self.typed = want.clone();
        Some(ops)
    }
}

/// What the typist's model holds before batch `i` of decodes: nothing at
/// first, then the latest decode of the batch before.
pub open spec fn model_before(batches: Seq<Seq<Seq<char>>>, i: int) -> Seq<char> {
    if i <= 0 {
        seq![]
    } else {
        batches[i - 1].last()
    }
}

/// One step of the typist as `Typist::step` makes it, with the keyboard
/// carrying out its edit on the field: no edit when the model already
/// holds the latest decode, else a reconcile from the model to it.
pub open spec fn typist_step_ok(
    typed: Seq<char>,
    want: Seq<char>,
    edit: Option<Seq<Op>>,
    field: Seq<char>,
    next: Seq<char>,
) -> bool {
    match edit {
        None => typed == want && next == field,
        Some(o) => typed != want && is_reconcile(typed, want, o) && next == field_after(field, o),
    }
}

/// The field tracks the typist's model through the batches.
proof fn lemma_typist_tracks(
    batches: Seq<Seq<Seq<char>>>,
    edits: Seq<Option<Seq<Op>>>,
    fields: Seq<Seq<char>>,
    k: int,
)
    requires
        0 <= k <= batches.len(),
        edits.len() == batches.len(),
        fields.len() == batches.len() + 1,
        fields[0] == Seq::<char>::empty(),
        forall|i: int| 0 <= i < batches.len() ==> (#[trigger] batches[i]).len() > 0,
        forall|i: int| 0 <= i < batches.len() ==> (#[trigger] batches[i]).last().len() <= usize::MAX,
        forall|i: int|
            0 <= i < batches.len() ==> typist_step_ok(
                model_before(batches, i),
                batches[i].last(),
                #[trigger] edits[i],
                fields[i],
                fields[i + 1],
            ),
    ensures
        fields[k] == model_before(batches, k),
    decreases k,
{
    if k > 0 {
        lemma_typist_tracks(batches, edits, fields, k - 1);
        let i = k - 1;
        assert(typist_step_ok(model_before(batches, i), batches[i].last(), edits[i], fields[i], fields[i + 1]));
        if i > 0 {
            assert(batches[i - 1].len() > 0);
            assert(batches[i - 1].last().len() <= usize::MAX);
        }
        match edits[i] {
            Some(o) => {
                lemma_reconcile_round_trip(model_before(batches, i), batches[i].last(), o);
            },
            None => {},
        }
    }
}

/// Over a whole stream of decodes, received in batches, the field converges
/// to the latest decode: when the typist steps on each batch and the
/// keyboard carries out each edit it returns on a field that starts empty,
/// the field ends holding the last decode of the last batch.
pub proof fn lemma_typist_converges(
    batches: Seq<Seq<Seq<char>>>,
    edits: Seq<Option<Seq<Op>>>,
    fields: Seq<Seq<char>>,
)
    requires
        batches.len() > 0,
        edits.len() == batches.len(),
        fields.len() == batches.len() + 1,
        fields[0] == Seq::<char>::empty(),
        forall|i: int| 0 <= i < batches.len() ==> (#[trigger] batches[i]).len() > 0,
        forall|i: int| 0 <= i < batches.len() ==> (#[trigger] batches[i]).last().len() <= usize::MAX,
        forall|i: int|
            0 <= i < batches.len() ==> typist_step_ok(
                model_before(batches, i),
                batches[i].last(),
                #[trigger] edits[i],
                fields[i],
                fields[i + 1],
            ),
    ensures
        fields.last() == batches.last().last(),
{
    lemma_typist_tracks(batches, edits, fields, batches.len() as int);
}

/// The decoder's memory: how much audio it last decoded and what it last
/// sent to the typist.
pub struct DecodeState {
    pub last_len: usize,
    pub last_sent: String,
}

impl DecodeState {
    pub fn new() -> (d: Self)
        ensures
            d.last_len == 0,
            d.last_sent@ == Seq::<char>::empty(),
    {
        DecodeState { last_len: 0, last_sent: String::new() }
    }

    /// Whether the clip has grown since the last decode; remembers its
    /// length when it has.
    pub fn has_new_audio(&mut self, clip_len: usize) -> (b: bool)
        ensures
            b == (clip_len != old(self).last_len),
            final(self).last_len == clip_len,
            final(self).last_sent == old(self).last_sent,
    {
        if clip_len == self.last_len {
            return false;
        }
        self.last_len = clip_len;
        true
    }

    /// The text to send for a decode: the decode trimmed, unless it is
    /// empty (silence or garble is never reconciled to) or what was last
    /// sent.
    pub fn offer(&mut self, decoded: &str) -> (r: Option<String>)
        ensures
            final(self).last_len == old(self).last_len,
            match r {
                Some(w) => w@ == trim(decoded@) && w@.len() > 0 && w@ != old(self).last_sent@
                    && final(self).last_sent@ == w@,
                None => (trim(decoded@).len() == 0 || trim(decoded@) == old(self).last_sent@)
                    && final(self).last_sent == old(self).last_sent,
            },
            trim(decoded@).len() > 0 ==> final(self).last_sent@ == trim(decoded@),
    {
        let dc = chars_of(decoded);
        let t = trim_chars(&dc);
        let want = string_of(&t);
        if t.len() == 0 || want == self.last_sent {
            return None;
        }
        self.last_sent = want.clone();
        Some(want)
    }
}

/// Replaying a recording through the reconcile path: the typist's model
/// and the in-memory field it edits.
pub struct Replay {
    pub typed: String,
    pub field: String,
}

impl Replay {
    pub fn new() -> (r: Self)
        ensures
            r.typed@ == Seq::<char>::empty(),
            r.field@ == Seq::<char>::empty(),
    {
        Replay { typed: String::new(), field: String::new() }
    }

    /// Reconciles the field toward one decode of the clip so far (skipped
    /// when it trims to nothing).
    pub fn step(&mut self, decoded: &str)
        requires
            old(self).typed@.len() + trim(decoded@).len() <= usize::MAX,
            old(self).typed@.len() <= u32::MAX || trim(decoded@).len() <= u32::MAX,
            old(self).field@.len() + trim(decoded@).len() <= usize::MAX,
        ensures
            trim(decoded@).len() == 0 ==> *final(self) == *old(self),
            trim(decoded@).len() > 0 ==> {
                &&& final(self).typed@ == trim(decoded@)
                &&& exists|ops: Seq<Op>|
                    is_reconcile(old(self).typed@, trim(decoded@), ops) && final(self).field@
                        == field_after(old(self).field@, ops)
            },
            old(self).field@ == old(self).typed@ ==> final(self).field@ == final(self).typed@,
    {
        let dc = chars_of(decoded);
        let t = trim_chars(&dc);
        if t.len() == 0 {
            return;
        }
        let want = string_of(&t);
        let ops = reconcile(self.typed.as_str(), want.as_str());
        proof {
            lemma_plan_typed_total(self.typed@, want@, ops@);
        }
        apply_ops_to_string(&mut self.field, ops.as_slice());
        self.typed = want;
    }
}

/// The dropped (`'-'`) and inserted (`'+'`) words of a word diff.
pub open spec fn tagged_words(d: Seq<(char, String)>, tag: char) -> Seq<Seq<char>>
    decreases d.len(),
{
    if d.len() == 0 {
        seq![]
    } else {
        tagged_words(d.drop_last(), tag) + if d.last().0 == tag {
            seq![d.last().1@]
        } else {
            seq![]
        }
    }
}

/// The words of a word diff that carry `tag`, in order.
pub fn words_tagged(d: &Vec<(char, String)>, tag: char) -> (out: Vec<String>)
    ensures
        views(out@) == tagged_words(d@, tag),
{
    let mut out: Vec<String> = Vec::new();
    let mut k: usize = 0;
    assert(d@.take(0) =~= Seq::<(char, String)>::empty());
    while k < d.len()
        invariant
            k <= d.len(),
            views(out@) == tagged_words(d@.take(k as int), tag),
        decreases d.len() - k,
    {
        assert(d@.take(k + 1).drop_last() =~= d@.take(k as int));
        if d[k].0 == tag {
            let ghost o0 = views(out@);
            out.push(d[k].1.clone());
            assert(views(out@) =~= o0 + seq![d@[k as int].1@]);
        } else {
            assert(views(out@) =~= views(out@) + Seq::<Seq<char>>::empty());
        }
        k += 1;
    }
    assert(d@.take(d.len() as int) =~= d@);
    out
}

// ---------------------------------------------------------------------------
// The worker's pid file
// ---------------------------------------------------------------------------

/// All characters are ASCII digits.
pub open spec fn all_digits(d: Seq<char>) -> bool {
    forall|i: int| 0 <= i < d.len() ==> #[trigger] crate::text::is_ascii_digit(d[i])
}

/// A decimal `i32` as `str::parse` reads it: an optional sign, then one or
/// more ASCII digits, in range.
pub open spec fn parse_i32(s: Seq<char>) -> Option<i32> {
    let neg = s.len() > 0 && s[0] == '-';
    let signed = s.len() > 0 && (s[0] == '-' || s[0] == '+');
    let d = if signed {
        s.drop_first()
    } else {
        s
    };
    let v: int = if neg {
        -(digits_value(d) as int)
    } else {
        digits_value(d) as int
    };
    if d.len() == 0 || !all_digits(d) || v < i32::MIN || v > i32::MAX {
        None
    } else {
        Some(v as i32)
    }
}

/// Reads the worker's PID from the pid file's contents (surrounding
/// whitespace ignored).
pub fn parse_pid(contents: &str) -> (r: Option<i32>)
    ensures
        r == parse_i32(trim(contents@)),
{
    let cs = chars_of(contents);
    let t = trim_chars(&cs);
    let neg = t.len() > 0 && t[0] == '-';
    let signed = t.len() > 0 && (t[0] == '-' || t[0] == '+');
    let start: usize = if signed {
        1
    } else {
        0
    };
    let d = crate::text::slice_chars(&t, start, t.len());
    assert(d@ =~= if signed {
        t@.drop_first()
    } else {
        t@
    });
    if d.len() == 0 {
        return None;
    }
    let limit: u64 = if neg {
        2147483648
    } else {
        2147483647
    };
    let mut acc: u64 = 0;
    let mut k: usize = 0;
    assert(d@.take(0) =~= Seq::<char>::empty());
    while k < d.len()
        invariant
            k <= d.len(),
            acc == digits_value(d@.take(k as int)),
            acc <= limit,
            limit == if neg {
                2147483648u64
            } else {
                2147483647u64
            },
            t@ == trim(contents@),
            neg == (t@.len() > 0 && t@[0] == '-'),
            signed == (t@.len() > 0 && (t@[0] == '-' || t@[0] == '+')),
            d@ == if signed {
                t@.drop_first()
            } else {
                t@
            },
            d@.len() > 0,
            forall|i: int| 0 <= i < k ==> #[trigger] crate::text::is_ascii_digit(d@[i]),
        decreases d.len() - k,
    {
        if !crate::text::ascii_digit(d[k]) {
            assert(!crate::text::is_ascii_digit(d@[k as int]));
            return None;
        }
        assert(d@.take(k + 1).drop_last() =~= d@.take(k as int));
        let digit = (d[k] as u32 - '0' as u32) as u64;
        acc = acc * 10 + digit;
        k += 1;
        if acc > limit {
            proof {
                if all_digits(d@) {
                    crate::bwrap::lemma_digits_value_prefix(d@, k as int);
                }
            }
            return None;
        }
    }
    assert(d@.take(d.len() as int) =~= d@);
    if neg {
        Some((0 - acc as i64) as i32)
    } else {
        Some(acc as i32)
    }
}

} // verus!
