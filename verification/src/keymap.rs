//! The virtual keyboard's own XKB keymap: every keysym it types gets a
//! keycode of its own at a single level, so typing a character is pressing
//! its keycode, with no layout or modifiers involved.
use vstd::prelude::*;
use crate::lcs::views;
use crate::text::{string_from, push_str, push_char, decimal, decimal_string, concat2};

verus! {

/// The keysyms with their keycodes: the keysym at index `i` has evdev
/// keycode `i + 1` (keycode 0 is reserved), XKB keycode `i + 9`.
pub struct KeyCodes {
    pub syms: Vec<String>,
}

/// Hexadecimal digit for `d < 16`, uppercase.
pub open spec fn hex_digit(d: nat) -> char {
    if d < 10 {
        (('0' as nat) + d) as char
    } else {
        (('A' as nat) + d - 10) as char
    }
}

/// The uppercase hexadecimal rendering of `n`, without leading zeros.
pub open spec fn hex(n: nat) -> Seq<char>
    decreases n,
{
    if n < 16 {
        seq![hex_digit(n)]
    } else {
        hex(n / 16).push(hex_digit(n % 16))
    }
}

/// `s` padded on the left with `0` to at least `w` characters.
pub open spec fn zero_pad(s: Seq<char>, w: nat) -> Seq<char> {
    if s.len() >= w {
        s
    } else {
        Seq::new((w - s.len()) as nat, |i: int| '0') + s
    }
}

/// The keysym name of a character: `U` and its code point in uppercase
/// hexadecimal, at least four digits.
pub open spec fn keysym_of(c: char) -> Seq<char> {
    seq!['U'] + zero_pad(hex(c as nat), 4)
}

fn hex_string(n: u32) -> (s: String)
    ensures
        s@ == hex(n as nat),
    decreases n,
{
    let d = n % 16;
    let c: char = if d < 10 {
        (48u8 + d as u8) as char
    } else {
        (55u8 + d as u8) as char
    };
    assert(c == hex_digit(d as nat));
    if n < 16 {
        let mut s = String::new();
        push_char(&mut s, c);
        assert(s@ =~= seq![hex_digit(n as nat)]);
        s
    } else {
        let mut s = hex_string(n / 16);
        push_char(&mut s, c);
        s
    }
}

/// The keysym name for a character (`U` + `{:04X}` of its code point).
pub fn keysym_for_char(c: char) -> (s: String)
    ensures
        s@ == keysym_of(c),
{
    let h = hex_string(c as u32);
    let mut s = String::new();
    push_char(&mut s, 'U');
    let hl = crate::text::chars_of(h.as_str()).len();
    let mut k: usize = hl;
    while k < 4
        invariant
            hl == h@.len(),
            hl <= k <= 4 || (hl > 4 && k == hl),
            s@ == seq!['U'] + Seq::new((k - hl) as nat, |i: int| '0'),
        decreases 4 - k,
    {
        push_char(&mut s, '0');
        k += 1;
        assert(s@ =~= seq!['U'] + Seq::new((k - hl) as nat, |i: int| '0'));
    }
    push_str(&mut s, h.as_str());
    proof {
        if hl >= 4 {
            assert(s@ =~= seq!['U'] + hex(c as nat));
        } else {
            assert(s@ =~= seq!['U'] + (Seq::new((4 - hl) as nat, |i: int| '0') + hex(c as nat)));
        }
    }
    s
}

/// The evdev keycode of `sym`: one more than its index.
pub open spec fn code_of(syms: Seq<Seq<char>>, sym: Seq<char>) -> Option<nat> {
    if exists|i: int| 0 <= i < syms.len() && syms[i] == sym {
        let i = choose|i: int| 0 <= i < syms.len() && syms[i] == sym;
        Some((i + 1) as nat)
    } else {
        None
    }
}

/// The keymap lines declaring XKB keycodes `9 ..= n + 8`.
pub open spec fn keycode_lines(n: nat) -> Seq<char>
    decreases n,
{
    if n == 0 {
        seq![]
    } else {
        let x = decimal(n + 8);
        keycode_lines((n - 1) as nat) + "    <K"@ + x + "> = "@ + x + ";\n"@
    }
}

/// The keymap lines binding each keysym to its keycode.
pub open spec fn symbol_lines(syms: Seq<Seq<char>>) -> Seq<char>
    decreases syms.len(),
{
    if syms.len() == 0 {
        seq![]
    } else {
        let x = decimal(syms.len() + 8);
        symbol_lines(syms.drop_last()) + "    key <K"@ + x + "> { [ "@ + syms.last() + " ] };\n"@
    }
}

/// The whole keymap for the keysyms.
pub open spec fn keymap_text(syms: Seq<Seq<char>>) -> Seq<char> {
    let max = if syms.len() == 0 {
        8
    } else {
        syms.len() + 8
    };
    "xkb_keymap {\n  xkb_keycodes \"dictate\" {\n    minimum = 8;\n    maximum = "@ + decimal(
        max as nat,
    ) + ";\n"@ + keycode_lines(syms.len()) + "  };\n  xkb_types \"dictate\" { include \"complete\" };\n  xkb_compatibility \"dictate\" { include \"complete\" };\n  xkb_symbols \"dictate\" {\n"@
        + symbol_lines(syms) + "  };\n};\n"@
}

/// The keysyms pre-assigned when the keyboard starts: the cursor and edit
/// keys, then every printable ASCII character.
pub open spec fn default_syms() -> Seq<Seq<char>> {
    seq!["BackSpace"@, "Left"@, "Right"@, "Delete"@, "Home"@, "End"@] + Seq::new(
        95,
        |i: int| keysym_of((' ' as int + i) as char),
    )
}

proof fn lemma_hex_digit_injective(a: nat, b: nat)
    requires
        a < 16,
        b < 16,
        a != b,
    ensures
        hex_digit(a) != hex_digit(b),
{
}

/// The keysym of a two-hex-digit character.
proof fn lemma_keysym_two_digits(n: nat)
    requires
        16 <= n < 256,
    ensures
        keysym_of(n as char) == seq!['U', '0', '0', hex_digit(n / 16), hex_digit(n % 16)],
        (n as char) as nat == n,
{
    assert((n as char) as nat == n);
    assert(n / 16 < 16);
    assert(hex(n / 16) == seq![hex_digit(n / 16)]);
    assert(hex(n) =~= seq![hex_digit(n / 16), hex_digit(n % 16)]);
    assert(zero_pad(hex(n), 4) =~= seq!['0', '0', hex_digit(n / 16), hex_digit(n % 16)]);
    assert(keysym_of(n as char) =~= seq!['U', '0', '0', hex_digit(n / 16), hex_digit(n % 16)]);
}

/// The default keysyms are all different.
proof fn lemma_default_syms_distinct()
    ensures
        default_syms().no_duplicates(),
{
    reveal_strlit("BackSpace");
    reveal_strlit("Left");
    reveal_strlit("Right");
    reveal_strlit("Delete");
    reveal_strlit("Home");
    reveal_strlit("End");
    let d = default_syms();
    assert forall|i: int, j: int| 0 <= i < d.len() && 0 <= j < d.len() && i != j implies d[i] != d[j] by {
        if i >= 6 {
            lemma_keysym_two_digits((32 + i - 6) as nat);
            assert(d[i] == keysym_of(((' ' as int) + (i - 6)) as char));
        }
        if j >= 6 {
            lemma_keysym_two_digits((32 + j - 6) as nat);
            assert(d[j] == keysym_of(((' ' as int) + (j - 6)) as char));
        }
        if i >= 6 && j >= 6 {
            let a = (32 + i - 6) as nat;
            let b = (32 + j - 6) as nat;
            if a / 16 != b / 16 {
                lemma_hex_digit_injective(a / 16, b / 16);
                assert(d[i][3] != d[j][3]);
            } else {
                lemma_hex_digit_injective(a % 16, b % 16);
                assert(d[i][4] != d[j][4]);
            }
        } else if i >= 6 {
            assert(d[i][0] == 'U');
            assert(d[j].len() != 5 || d[j][0] != 'U');
        } else if j >= 6 {
            assert(d[j][0] == 'U');
            assert(d[i].len() != 5 || d[i][0] != 'U');
        } else {
            assert(d[i].len() != d[j].len() || d[i][0] != d[j][0]);
        }
    }
}

impl KeyCodes {
    /// Each keysym once, and room for every keycode.
    pub open spec fn wf(&self) -> bool {
        &&& views(self.syms@).no_duplicates()
        &&& self.syms@.len() + 8 <= u32::MAX
    }

    /// The keysyms in keycode order.
    pub open spec fn symbols(&self) -> Seq<Seq<char>> {
        views(self.syms@)
    }

    pub fn new() -> (k: Self)
        ensures
            k.wf(),
            k.symbols() == Seq::<Seq<char>>::empty(),
            k.syms@.len() == 0,
    {
        let k = KeyCodes { syms: Vec::new() };
        assert(k.symbols() =~= Seq::<Seq<char>>::empty());
        k
    }

    /// The keycode of `sym`, if it has one.
    pub fn code(&self, sym: &str) -> (r: Option<u32>)
        requires
            self.wf(),
        ensures
            match r {
                Some(c) => code_of(self.symbols(), sym@) == Some(c as nat),
                None => code_of(self.symbols(), sym@) is None,
            },
    {
        let s = string_from(sym);
        let mut i: usize = 0;
        while i < self.syms.len()
            invariant
                i <= self.syms.len(),
                s@ == sym@,
                self.wf(),
                forall|j: int| 0 <= j < i ==> self.symbols()[j] != sym@,
            decreases self.syms.len() - i,
        {
            if self.syms[i] == s {
                proof {
                    let sy = self.symbols();
                    assert(sy[i as int] == sym@);
                    let c = choose|c: int| 0 <= c < sy.len() && sy[c] == sym@;
                    assert(c == i) by {
                        if c != i {
                            assert(sy.no_duplicates());
                        }
                    }
                }
                return Some((i + 1) as u32);
            }
            i += 1;
        }
        None
    }

    /// The keycode of `sym`, assigning the next free one if it has none;
    /// also whether it was newly assigned (the keymap must then be sent
    /// again).
    pub fn assign(&mut self, sym: &str) -> (r: (u32, bool))
        requires
            old(self).wf(),
            old(self).syms@.len() + 9 <= u32::MAX,
        ensures
            final(self).wf(),
            code_of(final(self).symbols(), sym@) == Some(r.0 as nat),
            r.1 == (code_of(old(self).symbols(), sym@) is None),
            r.1 ==> final(self).symbols() == old(self).symbols().push(sym@),
            !r.1 ==> final(self).symbols() == old(self).symbols(),
    {
        match self.code(sym) {
            Some(c) => (c, false),
            None => {
                let ghost before = self.symbols();
                self.syms.push(string_from(sym));
                let n = self.syms.len();
                proof {
                    let sy = self.symbols();
                    assert(sy =~= before.push(sym@));
                    assert(!before.contains(sym@));
                    assert(sy.no_duplicates()) by {
                        assert forall|i: int, j: int| 0 <= i < sy.len() && 0 <= j < sy.len() && i != j implies sy[i] != sy[j] by {
                            if i < before.len() && j < before.len() {
                            } else if i == before.len() {
                                assert(sy[j] == before[j]);
                            } else {
                                assert(sy[i] == before[i]);
                            }
                        }
                    }
                    assert(sy[n - 1] == sym@);
                    let c = choose|c: int| 0 <= c < sy.len() && sy[c] == sym@;
                    assert(c == n - 1) by {
                        if c != n - 1 {
                            assert(sy[c] == before[c]);
                        }
                    }
                }
                (n as u32, true)
            },
        }
    }

    /// The keycodes with the default keysyms assigned.
    pub fn with_defaults() -> (k: Self)
        ensures
            k.wf(),
            k.symbols() == default_syms(),
    {
        let mut k = KeyCodes::new();
        let mut syms: Vec<String> = Vec::new();
        syms.push(string_from("BackSpace"));
        syms.push(string_from("Left"));
        syms.push(string_from("Right"));
        syms.push(string_from("Delete"));
        syms.push(string_from("Home"));
        syms.push(string_from("End"));
        let mut c: u32 = 32;
        while c <= 126
            invariant
                32 <= c <= 127,
                views(syms@) == default_syms().take(6 + c - 32),
            decreases 127 - c,
        {
            let ghost o0 = views(syms@);
            let ch = c as u8 as char;
            assert(ch == ((' ' as int + (c - 32)) as char));
            syms.push(keysym_for_char(ch));
            assert(views(syms@) =~= o0.push(keysym_of(ch)));
            assert(views(syms@) =~= default_syms().take(6 + c + 1 - 32));
            c += 1;
        }
        assert(default_syms().take(101) =~= default_syms());
        proof {
            lemma_default_syms_distinct();
        }
        let mut i: usize = 0;
        while i < syms.len()
            invariant
                i <= syms.len() == 101,
                k.wf(),
                k.symbols() == views(syms@).take(i as int),
                k.syms@.len() == i,
                views(syms@) == default_syms(),
                views(syms@).no_duplicates(),
            decreases syms.len() - i,
        {
            proof {
                let t = views(syms@).take(i as int);
                assert(!t.contains(views(syms@)[i as int])) by {
                    if t.contains(views(syms@)[i as int]) {
                        let j = choose|j: int| 0 <= j < t.len() && t[j] == views(syms@)[i as int];
                        assert(views(syms@)[j] == views(syms@)[i as int]);
                    }
                }
                if exists|j: int| 0 <= j < t.len() && t[j] == syms@[i as int]@ {
                    let j = choose|j: int| 0 <= j < t.len() && t[j] == syms@[i as int]@;
                    assert(t.contains(views(syms@)[i as int]));
                }
            }
            let (code, fresh) = k.assign(syms[i].as_str());
            assert(k.symbols() =~= views(syms@).take(i + 1));
            i += 1;
        }
        assert(views(syms@).take(101) =~= views(syms@));
        k
    }

    /// The XKB keymap: keycodes from 9 on, in the order the keysyms were
    /// assigned, each bound to its keysym at a single level.
    pub fn build_keymap(&self) -> (s: String)
        requires
            self.wf(),
        ensures
            s@ == keymap_text(self.symbols()),
    {
        let mut keycodes = String::new();
        let mut symbols = String::new();
        let mut i: usize = 0;
        assert(self.symbols().take(0) =~= Seq::<Seq<char>>::empty());
        while i < self.syms.len()
            invariant
                i <= self.syms.len(),
                self.wf(),
                keycodes@ == keycode_lines(i as nat),
                symbols@ == symbol_lines(self.symbols().take(i as int)),
            decreases self.syms.len() - i,
        {
            let x = decimal_string((i + 9) as u64);
            push_str(&mut keycodes, "    <K");
            push_str(&mut keycodes, x.as_str());
            push_str(&mut keycodes, "> = ");
            push_str(&mut keycodes, x.as_str());
            push_str(&mut keycodes, ";\n");
            push_str(&mut symbols, "    key <K");
            push_str(&mut symbols, x.as_str());
            push_str(&mut symbols, "> { [ ");
            push_str(&mut symbols, self.syms[i].as_str());
            push_str(&mut symbols, " ] };\n");
            proof {
                let t = self.symbols().take(i + 1);
                assert(t.drop_last() =~= self.symbols().take(i as int));
                assert(t.last() == self.syms@[i as int]@);
            }
            i += 1;
        }
        assert(self.symbols().take(self.syms.len() as int) =~= self.symbols());
        let max: u64 = if self.syms.len() == 0 {
            8
        } else {
            (self.syms.len() + 8) as u64
        };
        let m = decimal_string(max);
        let mut s = string_from("xkb_keymap {\n  xkb_keycodes \"dictate\" {\n    minimum = 8;\n    maximum = ");
        push_str(&mut s, m.as_str());
        push_str(&mut s, ";\n");
        push_str(&mut s, keycodes.as_str());
        push_str(&mut s, "  };\n  xkb_types \"dictate\" { include \"complete\" };\n  xkb_compatibility \"dictate\" { include \"complete\" };\n  xkb_symbols \"dictate\" {\n");
        push_str(&mut s, symbols.as_str());
        push_str(&mut s, "  };\n};\n");
        s
    }
}

/// In a keymap each keysym at most once, distinct keysyms have distinct
/// keycodes.
pub proof fn lemma_codes_distinct(k: KeyCodes, s1: Seq<char>, s2: Seq<char>)
    requires
        k.wf(),
        s1 != s2,
        code_of(k.symbols(), s1) is Some,
        code_of(k.symbols(), s2) is Some,
    ensures
        code_of(k.symbols(), s1) != code_of(k.symbols(), s2),
{
}

/// Assigning a keysym (which either leaves the keysyms as they are or
/// appends the new one) keeps the keycode of every keysym assigned before.
pub proof fn lemma_assign_keeps_codes(before: KeyCodes, after: KeyCodes, sym: Seq<char>, other: Seq<char>)
    requires
        before.wf(),
        after.wf(),
        after.symbols() == before.symbols() || after.symbols() == before.symbols().push(sym),
        code_of(before.symbols(), other) is Some,
    ensures
        code_of(after.symbols(), other) == code_of(before.symbols(), other),
{
    let b = before.symbols();
    let a = after.symbols();
    let i = choose|i: int| 0 <= i < b.len() && b[i] == other;
    assert(a[i] == other);
    let j = choose|j: int| 0 <= j < a.len() && a[j] == other;
    assert(j == i) by {
        if j != i {
            assert(a.no_duplicates());
        }
    }
}

} // verus!
