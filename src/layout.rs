//! The two debug layouts of a snapshot: a table with one row per window,
//! and a compact one-line form of a single window.
use vstd::prelude::*;
use crate::enumerator::WindowEnumerator;
use crate::errors::hex_alphabet;
use crate::types::WindowInfo;

verus! {

/// The digits of `n` in `base` (2 to 16), most significant first, without
/// leading zeros; `0` is one digit.
pub open spec fn digits_in(n: nat, base: nat) -> Seq<char>
    decreases n,
    via digits_in_decreases
{
    if n < base || base < 2 {
        seq![hex_alphabet()[n as int]]
    } else {
        digits_in(n / base, base).push(hex_alphabet()[(n % base) as int])
    }
}

#[via_fn]
proof fn digits_in_decreases(n: nat, base: nat) {
    if !(n < base || base < 2) {
        lemma_quotient_smaller(n, base);
    }
}

proof fn lemma_quotient_smaller(n: nat, base: nat)
    requires
        n >= base,
        base >= 2,
    ensures
        n / base < n,
{
    assert(n / base < n) by (nonlinear_arith)
        requires
            n >= base,
            base >= 2,
    ;
}

/// The decimal text of `n`, with a leading `-` when negative.
pub open spec fn decimal(n: int) -> Seq<char> {
    if n < 0 {
        seq!['-'] + digits_in((-n) as nat, 10)
    } else {
        digits_in(n as nat, 10)
    }
}

/// `s` preceded by as many `fill` characters as make it `w` long; `s`
/// itself when it is already that long.
pub open spec fn pad_with(s: Seq<char>, w: nat, fill: char) -> Seq<char> {
    if s.len() >= w {
        s
    } else {
        Seq::new((w - s.len()) as nat, |i: int| fill) + s
    }
}

/// `s` right-aligned in a field of width `w`.
pub open spec fn pad_left(s: Seq<char>, w: nat) -> Seq<char> {
    pad_with(s, w, ' ')
}

/// The lower-case hexadecimal digits of a handle as an unsigned machine
/// word (two's complement when negative), zero-padded to at least `min`
/// digits.
pub open spec fn handle_hex(h: isize, min: nat) -> Seq<char> {
    let u: nat = if h < 0 {
        (usize::MAX + 1 + h) as nat
    } else {
        h as nat
    };
    pad_with(digits_in(u, 16), min, '0')
}

/// The header line of the table layout.
pub open spec fn table_header() -> Seq<char> {
    "Index | Handle      | PID    | Position    | Title"@
}

/// The rule line under the header of the table layout.
pub open spec fn table_rule() -> Seq<char> {
    "------|-------------|--------|-------------|-------------------"@
}

/// The row of the table layout for one window.
pub open spec fn table_row(w: WindowInfo) -> Seq<char> {
    pad_left(decimal(w.index as int), 5) + " | 0x"@ + handle_hex(w.hwnd, 8) + " | "@ + pad_left(
        decimal(w.pid as int),
        6,
    ) + " | "@ + pad_left(decimal(w.position.x as int), 4) + ","@ + pad_left(
        decimal(w.position.y as int),
        4,
    ) + "     | "@ + w.title@
}

/// The compact layout of one window.
pub open spec fn compact_text(w: WindowInfo) -> Seq<char> {
    "["@ + decimal(w.index as int) + "] 0x"@ + handle_hex(w.hwnd, 0) + " (PID: "@ + decimal(
        w.pid as int,
    ) + ") @ ("@ + decimal(w.position.x as int) + ","@ + decimal(w.position.y as int) + ") - "@
        + w.title@
}

/// The digit `d` (below 16) as a one-character text.
fn digit_text(d: usize) -> (r: &'static str)
    requires
        d < 16,
    ensures
        r@ == seq![hex_alphabet()[d as int]],
{
    let alphabet = "0123456789abcdef";
    proof {
        reveal_strlit("0123456789abcdef");
    }
    let r = alphabet.substring_char(d, d + 1);
    assert(r@ =~= seq![hex_alphabet()[d as int]]);
    r
}

/// The digits of `n` in `base`.
fn digits_text(n: usize, base: usize) -> (r: String)
    requires
        2 <= base <= 16,
    ensures
        r@ == digits_in(n as nat, base as nat),
    decreases n,
{
    if n < base {
        String::from_str(digit_text(n))
    } else {
        proof {
            lemma_quotient_smaller(n as nat, base as nat);
        }
        let mut r = digits_text(n / base, base);
        r.append(digit_text(n % base));
        r
    }
}

/// The decimal text of an unsigned number.
fn unsigned_text(n: usize) -> (r: String)
    ensures
        r@ == decimal(n as int),
{
    digits_text(n, 10)
}

/// The decimal text of a signed 32-bit number.
fn signed_text(n: i32) -> (r: String)
    ensures
        r@ == decimal(n as int),
{
    if n < 0 {
        let magnitude = (-(n as i64)) as usize;
        let mut r = String::from_str("-");
        proof {
            reveal_strlit("-");
        }
        let digits = digits_text(magnitude, 10);
        r.append(digits.as_str());
        assert(r@ =~= seq!['-'] + digits_in((-(n as int)) as nat, 10));
        r
    } else {
        digits_text(n as usize, 10)
    }
}

/// `s` preceded by copies of `fill` up to width `w`.
fn padded(s: &str, w: usize, fill: &str) -> (r: String)
    requires
        fill@.len() == 1,
    ensures
        r@ == pad_with(s@, w as nat, fill@[0]),
{
    let n = s.unicode_len();
    let mut r = String::new();
    if n < w {
        let mut k: usize = 0;
        while k < w - n
            invariant
                n == s@.len(),
                n < w,
                k <= w - n,
                fill@.len() == 1,
                r@ == Seq::new(k as nat, |i: int| fill@[0]),
            decreases w - n - k,
        {
            r.append(fill);
            k = k + 1;
            assert(r@ =~= Seq::new(k as nat, |i: int| fill@[0]));
        }
    }
    r.append(s);
    proof {
        if n >= w {
            assert(r@ =~= s@);
        }
    }
    r
}

/// The hexadecimal digits of a handle, zero-padded to at least `min`.
fn handle_text(h: isize, min: usize) -> (r: String)
    ensures
        r@ == handle_hex(h, min as nat),
{
    let u: usize = if h >= 0 {
        h as usize
    } else {
        usize::MAX - ((-(h + 1)) as usize)
    };
    let digits = digits_text(u, 16);
    let zero = "0";
    proof {
        reveal_strlit("0");
    }
    padded(digits.as_str(), min, zero)
}

/// Appends a string literal to `r`.
fn push_text(r: &mut String, s: &str)
    ensures
        final(r)@ == old(r)@ + s@,
{
    r.append(s);
}

impl WindowInfo {
    /// The compact layout of this window:
    /// `[index] 0xhandle (PID: pid) @ (x,y) - title`.
    pub fn compact_line(&self) -> (r: String)
        ensures
            r@ == compact_text(*self),
    {
        let mut r = String::from_str("[");
        push_text(&mut r, unsigned_text(self.index).as_str());
        push_text(&mut r, "] 0x");
        push_text(&mut r, handle_text(self.hwnd, 0).as_str());
        push_text(&mut r, " (PID: ");
        push_text(&mut r, unsigned_text(self.pid as usize).as_str());
        push_text(&mut r, ") @ (");
        push_text(&mut r, signed_text(self.position.x).as_str());
        push_text(&mut r, ",");
        push_text(&mut r, signed_text(self.position.y).as_str());
        push_text(&mut r, ") - ");
        push_text(&mut r, self.title.as_str());
        r
    }

    /// The row of the table layout for this window.
    pub fn table_row_line(&self) -> (r: String)
        ensures
            r@ == table_row(*self),
    {
        let space = " ";
        proof {
            reveal_strlit(" ");
        }
        let mut r = padded(unsigned_text(self.index).as_str(), 5, space);
        push_text(&mut r, " | 0x");
        push_text(&mut r, handle_text(self.hwnd, 8).as_str());
        push_text(&mut r, " | ");
        push_text(&mut r, padded(unsigned_text(self.pid as usize).as_str(), 6, space).as_str());
        push_text(&mut r, " | ");
        push_text(&mut r, padded(signed_text(self.position.x).as_str(), 4, space).as_str());
        push_text(&mut r, ",");
        push_text(&mut r, padded(signed_text(self.position.y).as_str(), 4, space).as_str());
        push_text(&mut r, "     | ");
        push_text(&mut r, self.title.as_str());
        r
    }
}

impl WindowEnumerator {
    /// The table layout of the snapshot: a header line, a rule line, then
    /// one row per window in snapshot order.
    pub fn table_lines(&self) -> (r: Vec<String>)
        ensures
            r@.len() == self@.len() + 2,
            r@[0]@ == table_header(),
            r@[1]@ == table_rule(),
            forall|k: int| 0 <= k < self@.len() ==> (#[trigger] r@[k + 2])@ == table_row(self@[k]),
    {
        let windows = self.get_windows();
        let mut r: Vec<String> = Vec::new();
        r.push(String::from_str("Index | Handle      | PID    | Position    | Title"));
        r.push(String::from_str("------|-------------|--------|-------------|-------------------"));
        let mut i: usize = 0;
        while i < windows.len()
            invariant
                windows@ == self@,
                i <= windows@.len(),
                r@.len() == i + 2,
                r@[0]@ == table_header(),
                r@[1]@ == table_rule(),
                forall|k: int| 0 <= k < i ==> (#[trigger] r@[k + 2])@ == table_row(windows@[k]),
            decreases windows@.len() - i,
        {
            r.push(windows[i].table_row_line());
            i = i + 1;
        }
        r
    }
}

} // verus!
