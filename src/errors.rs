use vstd::prelude::*;

verus! {

/// Errors reported by the parsers and by snapshot construction.
#[derive(Debug, Clone, PartialEq, Eq)]
pub enum WindowError {
    /// The selection string format is invalid.
    InvalidSelectionFormat,
    /// The position sort string format is invalid.
    InvalidPositionSortFormat,
    /// A range token does not have the shape `start-end`.
    InvalidRange,
    /// A token cannot be read as a non-negative index.
    InvalidIndex,
    /// A sort direction other than `1` or `-1`.
    InvalidSortOrder,
    /// The platform's window enumeration failed with this code.
    WindowsApiError(u32),
    /// Any other failure.
    Other(String),
}

/// The lower-case hexadecimal digits.
pub open spec fn hex_alphabet() -> Seq<char> {
    "0123456789abcdef"@
}

/// The last `count` hexadecimal digits of `n`, most significant first.
pub open spec fn hex_digits(n: nat, count: nat) -> Seq<char>
    decreases count,
{
    if count == 0 {
        Seq::empty()
    } else {
        hex_digits(n / 16, (count - 1) as nat).push(hex_alphabet()[(n % 16) as int])
    }
}

/// The text that describes an error.
pub open spec fn message_of(e: WindowError) -> Seq<char> {
    match e {
        WindowError::InvalidSelectionFormat => "Invalid selection format. Use 'all', '1,2,3', or '1-3'"@,
        WindowError::InvalidPositionSortFormat => "Invalid position sort format. Use 'x1', 'y-1', or 'x1|y1'"@,
        WindowError::InvalidRange => "Invalid range format"@,
        WindowError::InvalidIndex => "Invalid index"@,
        WindowError::InvalidSortOrder => "Sort order must be 1 (ascending) or -1 (descending)"@,
        WindowError::WindowsApiError(code) => "Windows API error: 0x"@ + hex_digits(code as nat, 8),
        WindowError::Other(msg) => msg@,
    }
}

/// The eight hexadecimal digits of `n`, zero-padded.
fn hex8(n: u32) -> (r: String)
    ensures
        r@ == hex_digits(n as nat, 8),
{
    let alphabet = "0123456789abcdef";
    proof {
        reveal_strlit("0123456789abcdef");
        assert(hex_alphabet().len() == 16);
    }
    let mut digits: [usize; 8] = [0; 8];
    let mut rest: u32 = n;
    let mut k: usize = 8;
    assert(pow16(0) == 1);
    assert((n as nat) / 1 == n as nat) by (nonlinear_arith);
    while k > 0
        invariant
            k <= 8,
            forall|j: int| k <= j < 8 ==> digits@[j] < 16,
            rest as nat == (n as nat) / pow16((8 - k) as nat),
            forall|j: int|
                k <= j < 8 ==> digits@[j] as nat == ((n as nat) / pow16((7 - j) as nat)) % 16,
        decreases k,
    {
        k = k - 1;
        digits[k] = (rest % 16) as usize;
        proof {
            lemma_pow16_step((7 - k) as nat);
            lemma_div_div(n as nat, pow16((7 - k) as nat));
        }
        rest = rest / 16;
    }
    let mut r = String::new();
    let mut i: usize = 0;
    while i < 8
        invariant
            i <= 8,
            alphabet@ == hex_alphabet(),
            hex_alphabet().len() == 16,
            forall|j: int| 0 <= j < 8 ==> digits@[j] < 16,
            forall|j: int|
                0 <= j < 8 ==> digits@[j] as nat == ((n as nat) / pow16((7 - j) as nat)) % 16,
            r@ == hex_digits((n as nat) / pow16((8 - i) as nat), i as nat),
        decreases 8 - i,
    {
        let d = digits[i];
        let piece = alphabet.substring_char(d, d + 1);
        proof {
            lemma_hex_digits_step(n as nat, i as nat);
        }
        r.append(piece);
        assert(piece@ =~= seq![hex_alphabet()[d as int]]);
        i = i + 1;
    }
    assert(pow16(0) == 1);
    assert((n as nat) / 1 == n as nat) by (nonlinear_arith);
    r
}

/// 16 to the power `e`.
pub open spec fn pow16(e: nat) -> nat
    decreases e,
{
    if e == 0 {
        1
    } else {
        16 * pow16((e - 1) as nat)
    }
}

proof fn lemma_pow16_step(e: nat)
    ensures
        pow16(e) >= 1,
        pow16(e + 1) == 16 * pow16(e),
    decreases e,
{
    if e > 0 {
        lemma_pow16_step((e - 1) as nat);
    }
}

proof fn lemma_div_div(n: nat, m: nat)
    requires
        m >= 1,
    ensures
        (n / m) / 16 == n / (16 * m),
{
    vstd::arithmetic::div_mod::lemma_div_denominator(n as int, m as int, 16);
    assert(m * 16 == 16 * m) by (nonlinear_arith);
}

proof fn lemma_hex_digits_step(n: nat, i: nat)
    requires
        i < 8,
    ensures
        hex_digits(n / pow16((7 - i) as nat), i + 1) == hex_digits(n / pow16((8 - i) as nat), i)
            .push(hex_alphabet()[((n / pow16((7 - i) as nat)) % 16) as int]),
{
    lemma_pow16_step((7 - i) as nat);
    lemma_div_div(n, pow16((7 - i) as nat));
}

impl WindowError {
    /// The text that describes this error.
    pub fn message(&self) -> (r: String)
        ensures
            r@ == message_of(*self),
    {
        match self {
            WindowError::InvalidSelectionFormat => String::from_str(
                "Invalid selection format. Use 'all', '1,2,3', or '1-3'",
            ),
            WindowError::InvalidPositionSortFormat => String::from_str(
                "Invalid position sort format. Use 'x1', 'y-1', or 'x1|y1'",
            ),
            WindowError::InvalidRange => String::from_str("Invalid range format"),
            WindowError::InvalidIndex => String::from_str("Invalid index"),
            WindowError::InvalidSortOrder => String::from_str(
                "Sort order must be 1 (ascending) or -1 (descending)",
            ),
            WindowError::WindowsApiError(code) => {
                let mut r = String::from_str("Windows API error: 0x");
                let digits = hex8(*code);
                r.append(digits.as_str());
                r
            },
            WindowError::Other(msg) => msg.clone(),
        }
    }
}

} // verus!
