//! Crate-level error types.

use vstd::prelude::*;
use vstd::string::StringExecFns;

verus! {

pub enum MapError {
    Wgpu(String),
}

pub enum TileError {
    Network(String),
    Decode(String),
    ZoomOutOfRange(u8),
}

/// Decimal digits of `n`.
pub open spec fn decimal(n: nat) -> Seq<char>
    decreases n,
{
    if n < 10 {
        seq![digit_char(n)]
    } else {
        decimal(n / 10) + seq![digit_char(n % 10)]
    }
}

pub open spec fn digit_char(d: nat) -> char {
    if d == 0 { '0' } else if d == 1 { '1' } else if d == 2 { '2' } else if d == 3 { '3' }
    else if d == 4 { '4' } else if d == 5 { '5' } else if d == 6 { '6' } else if d == 7 { '7' }
    else if d == 8 { '8' } else { '9' }
}

fn digit(d: u8) -> (s: &'static str)
    requires
        d < 10,
    ensures
        s@ == seq![digit_char(d as nat)],
{
    proof {
        reveal_strlit("0");
        reveal_strlit("1");
        reveal_strlit("2");
        reveal_strlit("3");
        reveal_strlit("4");
        reveal_strlit("5");
        reveal_strlit("6");
        reveal_strlit("7");
        reveal_strlit("8");
        reveal_strlit("9");
    }
    match d {
        0 => "0",
        1 => "1",
        2 => "2",
        3 => "3",
        4 => "4",
        5 => "5",
        6 => "6",
        7 => "7",
        8 => "8",
        _ => "9",
    }
}

/// Append the decimal digits of `n` to `s`.
fn push_decimal(s: &mut String, n: u8)
    ensures
        final(s)@ == old(s)@ + decimal(n as nat),
    decreases n,
{
    if n >= 10 {
        push_decimal(s, n / 10);
    }
    s.append(digit(n % 10));
    proof {
        if n >= 10 {
            assert(decimal(n as nat) == decimal((n / 10) as nat) + seq![digit_char((n % 10) as nat)]);
        } else {
            assert((n % 10) == n);
        }
    }
}

impl MapError {
    /// The error's message.
    pub fn message(&self) -> (s: String)
        ensures
            match self {
                MapError::Wgpu(m) => s@ == "wgpu: "@ + m@,
            },
    {
        match self {
            MapError::Wgpu(m) => {
                let mut s = String::from_str("wgpu: ");
                s.append(m.as_str());
                s
            },
        }
    }
}

impl TileError {
    /// The error's message.
    pub fn message(&self) -> (s: String)
        ensures
            match self {
                TileError::Network(m) => s@ == "network: "@ + m@,
                TileError::Decode(m) => s@ == "decode: "@ + m@,
                TileError::ZoomOutOfRange(z) => s@ == "zoom "@ + decimal(*z as nat)
                    + " is outside the source's supported range"@,
            },
    {
        match self {
            TileError::Network(m) => {
                let mut s = String::from_str("network: ");
                s.append(m.as_str());
                s
            },
            TileError::Decode(m) => {
                let mut s = String::from_str("decode: ");
                s.append(m.as_str());
                s
            },
            TileError::ZoomOutOfRange(z) => {
                let mut s = String::from_str("zoom ");
                push_decimal(&mut s, *z);
                s.append(" is outside the source's supported range");
                s
            },
        }
    }
}

} // verus!
