//! Display descriptions read from EDID: the integer and flag parts of a
//! monitor's record, the key that identifies a monitor across runs, and
//! the connector name of a DRM device.
use vstd::prelude::*;
use crate::text::{chars_of, string_of, slice_chars, ascii_digit, is_ascii_digit, has_prefix};

verus! {

/// The digital video input of a display.
pub struct VideoInput {
    pub interface: String,
    pub color_bit_depth: Option<i32>,
}

/// The physical screen size.
pub struct Screen {
    pub width_cm: Option<i32>,
    pub height_cm: Option<i32>,
}

/// A detailed timing definition.
pub struct DetailedTiming {
    pub pixel_clock_hz: i32,
    pub horiz_video: i32,
    pub vert_video: i32,
    pub horiz_image_mm: i32,
    pub vert_image_mm: i32,
    pub interlaced: bool,
}

/// Display range limits.
pub struct RangeLimits {
    pub min_vert_rate_hz: i32,
    pub max_vert_rate_hz: i32,
    pub min_horiz_rate_hz: i32,
    pub max_horiz_rate_hz: i32,
    pub max_pixel_clock_hz: Option<i64>,
}

/// The signal colorimetries a display supports.
pub struct Colorimetry {
    pub bt2020_rgb: bool,
    pub bt2020_ycc: bool,
    pub bt2020_cycc: bool,
    pub st2113_rgb: bool,
    pub ictcp: bool,
}

/// The text of an optional field, or nothing.
pub open spec fn or_empty(s: Option<String>) -> Seq<char> {
    match s {
        Some(v) => v@,
        None => seq![],
    }
}

/// The key of a monitor: make, model and serial separated by the unit
/// separator (U+001F), missing parts empty.
pub open spec fn identity_key(make: Option<String>, model: Option<String>, serial: Option<String>) -> Seq<char> {
    or_empty(make) + seq!['\u{1f}'] + or_empty(model) + seq!['\u{1f}'] + or_empty(serial)
}

/// The key that identifies a monitor across runs.
pub fn identity(make: &Option<String>, model: &Option<String>, serial: &Option<String>) -> (s: String)
    ensures
        s@ == identity_key(*make, *model, *serial),
{
    let mut s = String::new();
    match make {
        Some(v) => crate::text::push_str(&mut s, v.as_str()),
        None => {},
    }
    crate::text::push_char(&mut s, '\u{1f}');
    match model {
        Some(v) => crate::text::push_str(&mut s, v.as_str()),
        None => {},
    }
    crate::text::push_char(&mut s, '\u{1f}');
    match serial {
        Some(v) => crate::text::push_str(&mut s, v.as_str()),
        None => {},
    }
    assert(s@ =~= identity_key(*make, *model, *serial));
    s
}

/// `s` without its leading repetitions of `p`.
pub open spec fn trim_start_all(s: Seq<char>, p: Seq<char>) -> Seq<char>
    decreases s.len(),
{
    if p.len() > 0 && has_prefix(s, p) {
        trim_start_all(s.skip(p.len() as int), p)
    } else {
        s
    }
}

/// `s` without its leading ASCII digits.
pub open spec fn trim_start_digits(s: Seq<char>) -> Seq<char>
    decreases s.len(),
{
    if s.len() > 0 && is_ascii_digit(s[0]) {
        trim_start_digits(s.drop_first())
    } else {
        s
    }
}

/// The connector of a DRM device entry: `card1-DP-2` is `DP-2`.
pub open spec fn connector_of(name: Seq<char>) -> Seq<char> {
    trim_start_all(trim_start_digits(trim_start_all(name, "card"@)), "-"@)
}

/// Removes every leading repetition of `p` from `s`.
fn trim_start_matches(s: &Vec<char>, p: &Vec<char>) -> (out: Vec<char>)
    ensures
        out@ == trim_start_all(s@, p@),
{
    let mut cur = s.clone();
    assert(cur@ == s@);
    while p.len() > 0 && crate::text::starts_with(&cur, p)
        invariant
            trim_start_all(cur@, p@) == trim_start_all(s@, p@),
        decreases cur.len(),
    {
        cur = slice_chars(&cur, p.len(), cur.len());
    }
    cur
}

/// The connector name of a DRM device entry.
pub fn connector_name(entry: &str) -> (s: String)
    ensures
        s@ == connector_of(entry@),
{
    let e = chars_of(entry);
    let card = chars_of("card");
    let dash = chars_of("-");
    let a = trim_start_matches(&e, &card);
    let mut k: usize = 0;
    assert(a@.skip(0) =~= a@);
    while k < a.len() && ascii_digit(a[k])
        invariant
            k <= a.len(),
            trim_start_digits(a@.skip(k as int)) == trim_start_digits(a@),
        decreases a.len() - k,
    {
        assert(a@.skip(k as int).drop_first() =~= a@.skip(k + 1));
        k += 1;
    }
    let b = slice_chars(&a, k, a.len());
    assert(b@ =~= a@.skip(k as int));
    let c = trim_start_matches(&b, &dash);
    string_of(&c)
}

// ---------------------------------------------------------------------------
// The append-only record of monitors
// ---------------------------------------------------------------------------

/// Lexicographic order of texts by code point. `String` keys of a
/// `BTreeMap` are ordered so: their UTF-8 bytes compare as their code
/// points do.
pub open spec fn text_lt(a: Seq<char>, b: Seq<char>) -> bool
    decreases a.len(),
{
    if a.len() == 0 {
        b.len() > 0
    } else if b.len() == 0 {
        false
    } else if a[0] != b[0] {
        a[0] < b[0]
    } else {
        text_lt(a.drop_first(), b.drop_first())
    }
}

/// No text is before itself.
pub proof fn lemma_text_lt_irreflexive(a: Seq<char>)
    ensures
        !text_lt(a, a),
    decreases a.len(),
{
    if a.len() > 0 {
        lemma_text_lt_irreflexive(a.drop_first());
    }
}

/// The order is transitive.
pub proof fn lemma_text_lt_transitive(a: Seq<char>, b: Seq<char>, c: Seq<char>)
    requires
        text_lt(a, b),
        text_lt(b, c),
    ensures
        text_lt(a, c),
    decreases a.len(),
{
    if a.len() > 0 && b.len() > 0 && c.len() > 0 && a[0] == b[0] && b[0] == c[0] {
        lemma_text_lt_transitive(a.drop_first(), b.drop_first(), c.drop_first());
    }
}

/// Two different texts are ordered one way or the other, not both.
pub proof fn lemma_text_lt_total(a: Seq<char>, b: Seq<char>)
    ensures
        a != b ==> (text_lt(a, b) || text_lt(b, a)),
        !(text_lt(a, b) && text_lt(b, a)),
    decreases a.len(),
{
    if a.len() > 0 && b.len() > 0 && a[0] == b[0] {
        lemma_text_lt_total(a.drop_first(), b.drop_first());
        if a.drop_first() == b.drop_first() {
            assert(a =~= seq![a[0]] + a.drop_first());
            assert(b =~= seq![b[0]] + b.drop_first());
        }
    } else if a.len() == 0 && b.len() == 0 {
        assert(a =~= b);
    }
}

/// Whether `a` comes before `b` in code point order.
pub fn text_less(a: &str, b: &str) -> (r: bool)
    ensures
        r == text_lt(a@, b@),
{
    let x = chars_of(a);
    let y = chars_of(b);
    let mut i: usize = 0;
    assert(x@.skip(0) =~= x@);
    assert(y@.skip(0) =~= y@);
    while i < x.len() && i < y.len() && x[i] == y[i]
        invariant
            i <= x.len(),
            i <= y.len(),
            text_lt(x@.skip(i as int), y@.skip(i as int)) == text_lt(a@, b@),
        decreases x.len() - i,
    {
        assert(x@.skip(i as int).drop_first() =~= x@.skip(i + 1));
        assert(y@.skip(i as int).drop_first() =~= y@.skip(i + 1));
        i += 1;
    }
    let ghost xs = x@.skip(i as int);
    let ghost ys = y@.skip(i as int);
    assert(xs.len() == x.len() - i && ys.len() == y.len() - i);
    if i == x.len() {
        i < y.len()
    } else if i == y.len() {
        false
    } else {
        assert(xs[0] == x@[i as int] && ys[0] == y@[i as int]);
        x[i] < y[i]
    }
}

/// The value of the last entry with `key`, if any.
pub open spec fn latest<T>(entries: Seq<(String, T)>, key: Seq<char>) -> Option<T>
    decreases entries.len(),
{
    if entries.len() == 0 {
        None
    } else if entries.last().0@ == key {
        Some(entries.last().1)
    } else {
        latest(entries.drop_last(), key)
    }
}

/// The keys are in strictly increasing order.
pub open spec fn keys_sorted<T>(s: Seq<(String, T)>) -> bool {
    forall|i: int, j: int| 0 <= i < j < s.len() ==> text_lt(#[trigger] s[i].0@, #[trigger] s[j].0@)
}

/// Some entry of `s` has `key`.
pub open spec fn has_key<T>(s: Seq<(String, T)>, key: Seq<char>) -> bool {
    exists|i: int| 0 <= i < s.len() && s[i].0@ == key
}

/// `out` is what a `BTreeMap` holds after inserting `entries` in order:
/// one entry per key, in key order, each with the value inserted last.
pub open spec fn is_upsert<T>(entries: Seq<(String, T)>, out: Seq<(String, T)>) -> bool {
    &&& keys_sorted(out)
    &&& forall|i: int| 0 <= i < out.len() ==> latest(entries, #[trigger] out[i].0@) == Some(out[i].1)
    &&& forall|j: int| 0 <= j < entries.len() ==> has_key(out, #[trigger] entries[j].0@)
}

/// Inserts the entries in order, a later entry replacing an earlier one
/// with the same key, and returns them in key order.
pub fn upsert_by_key<T>(entries: Vec<(String, T)>) -> (out: Vec<(String, T)>)
    ensures
        is_upsert(entries@, out@),
{
    let ghost all = entries@;
    let mut rest = entries;
    let mut out: Vec<(String, T)> = Vec::new();
    let mut k: usize = 0;
    assert(all.skip(0) =~= all);
    assert(all.len() == rest.len());
    while rest.len() > 0
        invariant
            k + rest@.len() == all.len(),
            all.len() <= usize::MAX,
            rest@ == all.skip(k as int),
            is_upsert(all.take(k as int), out@),
        decreases rest.len(),
    {
        let (key, val) = rest.remove(0);
        let ghost before = out@;
        let ghost done = all.take(k as int);
        let ghost next = all.take(k + 1);
        assert(next.drop_last() =~= done);
        assert(next.last() == (key, val));
        let mut p: usize = 0;
        while p < out.len() && text_less(out[p].0.as_str(), key.as_str())
            invariant
                p <= out.len(),
                out@ == before,
                forall|i: int| 0 <= i < p ==> text_lt(#[trigger] out@[i].0@, key@),
            decreases out.len() - p,
        {
            p += 1;
        }
        if p < out.len() && out[p].0 == key {
            out.set(p, (key, val));
            proof {
                assert forall|i: int, j: int| 0 <= i < j < out@.len() implies text_lt(
                    #[trigger] out@[i].0@,
                    #[trigger] out@[j].0@,
                ) by {
                    assert(text_lt(before[i].0@, before[j].0@));
                }
                assert forall|i: int| 0 <= i < out@.len() implies latest(next, #[trigger] out@[i].0@) == Some(
                    out@[i].1,
                ) by {
                    if i != p {
                        if i < p {
                            assert(text_lt(before[i].0@, before[p as int].0@));
                        } else {
                            assert(text_lt(before[p as int].0@, before[i].0@));
                        }
                        lemma_text_lt_irreflexive(key@);
                        assert(before[i].0@ != key@);
                    }
                }
                assert forall|j: int| 0 <= j < next.len() implies has_key(out@, #[trigger] next[j].0@) by {
                    if j < k {
                        assert(next[j] == done[j]);
                        let i = choose|i: int| 0 <= i < before.len() && before[i].0@ == done[j].0@;
                        assert(out@[i].0@ == before[i].0@);
                    } else {
                        assert(out@[p as int].0@ == next[j].0@);
                    }
                }
            }
        } else {
            proof {
                if p < before.len() {
                    lemma_text_lt_total(before[p as int].0@, key@);
                }
            }
            out.insert(p, (key, val));
            proof {
                assert forall|i: int, j: int| 0 <= i < j < out@.len() implies text_lt(
                    #[trigger] out@[i].0@,
                    #[trigger] out@[j].0@,
                ) by {
                    if j < p {
                        assert(text_lt(before[i].0@, before[j].0@));
                    } else if j == p {
                        assert(text_lt(before[i].0@, key@));
                    } else if i == p {
                        assert(out@[j] == before[j - 1]);
                        if j - 1 > p {
                            assert(text_lt(before[p as int].0@, before[j - 1].0@));
                            lemma_text_lt_transitive(key@, before[p as int].0@, before[j - 1].0@);
                        }
                    } else if i < p {
                        assert(out@[j] == before[j - 1]);
                        assert(text_lt(before[i].0@, before[j - 1].0@));
                    } else {
                        assert(text_lt(before[i - 1].0@, before[j - 1].0@));
                    }
                }
                assert forall|i: int| 0 <= i < out@.len() implies latest(next, #[trigger] out@[i].0@) == Some(
                    out@[i].1,
                ) by {
                    if i != p {
                        let b = if i < p {
                            i
                        } else {
                            i - 1
                        };
                        assert(out@[i] == before[b]);
                        assert(latest(done, before[b].0@) == Some(before[b].1));
                        if before[b].0@ == key@ {
                            if b < p {
                                lemma_text_lt_irreflexive(key@);
                            } else {
                                assert(b >= p);
                                if b > p {
                                    assert(text_lt(before[p as int].0@, before[b].0@));
                                    lemma_text_lt_total(before[p as int].0@, key@);
                                }
                            }
                        }
                    }
                }
                assert forall|j: int| 0 <= j < next.len() implies has_key(out@, #[trigger] next[j].0@) by {
                    if j < k {
                        assert(next[j] == done[j]);
                        let i = choose|i: int| 0 <= i < before.len() && before[i].0@ == done[j].0@;
                        if i < p {
                            assert(out@[i] == before[i]);
                        } else {
                            assert(out@[i + 1] == before[i]);
                        }
                    } else {
                        assert(out@[p as int].0@ == next[j].0@);
                    }
                }
            }
        }
        k += 1;
        assert(rest@ =~= all.skip(k as int));
    }
    assert(all.take(k as int) =~= all);
    out
}

/// The last entry with a key in two batches is the one in the second
/// batch, if it has one.
pub proof fn lemma_latest_concat<T>(p: Seq<(String, T)>, c: Seq<(String, T)>, key: Seq<char>)
    ensures
        latest(p + c, key) == match latest(c, key) {
            Some(v) => Some(v),
            None => latest(p, key),
        },
    decreases c.len(),
{
    if c.len() == 0 {
        assert(p + c =~= p);
    } else {
        assert((p + c).drop_last() =~= p + c.drop_last());
        lemma_latest_concat(p, c.drop_last(), key);
    }
}

/// The record of monitors only grows: after the prior record and the
/// monitors connected now are inserted, every monitor of the prior record
/// still has its entry, every monitor connected now has one, and an entry
/// of a monitor connected now holds what was read now.
pub proof fn lemma_record_append_only<T>(
    prior: Seq<(String, T)>,
    current: Seq<(String, T)>,
    out: Seq<(String, T)>,
)
    requires
        is_upsert(prior + current, out),
    ensures
        forall|j: int| 0 <= j < prior.len() ==> has_key(out, #[trigger] prior[j].0@),
        forall|j: int| 0 <= j < current.len() ==> has_key(out, #[trigger] current[j].0@),
        forall|i: int|
            0 <= i < out.len() && latest(current, #[trigger] out[i].0@) is Some ==> latest(current, out[i].0@)
                == Some(out[i].1),
{
    let all = prior + current;
    assert forall|j: int| 0 <= j < prior.len() implies has_key(out, #[trigger] prior[j].0@) by {
        assert(all[j] == prior[j]);
        assert(has_key(out, all[j].0@));
    }
    assert forall|j: int| 0 <= j < current.len() implies has_key(out, #[trigger] current[j].0@) by {
        assert(all[prior.len() + j] == current[j]);
        assert(has_key(out, all[prior.len() + j].0@));
    }
    assert forall|i: int| 0 <= i < out.len() && latest(current, #[trigger] out[i].0@) is Some implies latest(
        current,
        out[i].0@,
    ) == Some(out[i].1) by {
        lemma_latest_concat(prior, current, out[i].0@);
    }
}

} // verus!
