//! The errors of sealing and opening.

use vstd::prelude::*;
use vstd::string::StringExecFns;

verus! {

/// Why nothing was sealed or opened.
#[derive(Debug, Clone, Copy, PartialEq, Eq, Structural)]
pub enum GcmError {
    /// The key was not 16, 24 or 32 bytes (AES-128/192/256).
    InvalidKeyLength(usize),
    /// A tag of 0 bytes or longer than one block was requested.
    InvalidTagLength(usize),
}

/// The decimal digits of `n`, without leading zeros.
pub open spec fn decimal(n: nat) -> Seq<char>
    decreases n,
{
    let digit = ('0' as u32 + n % 10) as char;
    if n < 10 {
        seq![digit]
    } else {
        decimal(n / 10).push(digit)
    }
}

/// Appends the decimal digits of `n`.
fn append_decimal(out: &mut String, n: usize)
    ensures
        final(out)@ == old(out)@ + decimal(n as nat),
    decreases n,
{
    let ghost before = out@;
    if n >= 10 {
        append_decimal(out, n / 10);
    }
    proof {
        reveal_strlit("0");
        reveal_strlit("1");
        reveal_strlit("2");
        reveal_strlit("3");
        reveal_strlit("4");
        reveal_strlit("5");
        reveal_strlit("6");
        reveal_strlit("7");
        reveal_strlit("8");
        reveal_strlit("9");
    }
    match n % 10 {
        0 => out.append("0"),
        1 => out.append("1"),
        2 => out.append("2"),
        3 => out.append("3"),
        4 => out.append("4"),
        5 => out.append("5"),
        6 => out.append("6"),
        7 => out.append("7"),
        8 => out.append("8"),
        _ => out.append("9"),
    }
    assert(out@ == before + decimal(n as nat));
}

impl GcmError {
    /// What `message` says.
    pub open spec fn text(self) -> Seq<char> {
        match self {
            GcmError::InvalidKeyLength(n) => "AES key must be 16, 24 or 32 bytes, got "@ + decimal(
                n as nat,
            ),
            GcmError::InvalidTagLength(n) => "GCM tag must be 1..=16 bytes, got "@ + decimal(
                n as nat,
            ),
        }
    }

    /// The error in words.
    pub fn message(&self) -> (r: String)
        ensures
            r@ == self.text(),
    {
        match self {
            GcmError::InvalidKeyLength(n) => {
                let mut r: String = String::from_str("AES key must be 16, 24 or 32 bytes, got ");
                append_decimal(&mut r, *n);
                r
            },
            GcmError::InvalidTagLength(n) => {
                let mut r: String = String::from_str("GCM tag must be 1..=16 bytes, got ");
                append_decimal(&mut r, *n);
                r
            },
        }
    }
}

} // verus!
