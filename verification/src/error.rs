//! The typed error of the library: boundary and configuration checks return
//! one of these variants instead of panicking.
use vstd::prelude::*;

verus! {

/// Errors surfaced across the library boundary.
#[derive(Debug, Clone, PartialEq, Eq)]
pub enum SylvaError {
    /// Invalid caller input (wrong shape, disallowed value, mismatched lengths).
    InvalidInput(String),
    /// Invalid training configuration (nonsensical hyperparameters).
    InvalidConfig(String),
    /// A structurally invalid forest was detected.
    InvalidIr(String),
}

impl SylvaError {
    /// The human-readable message of the error, with its kind as a prefix
    /// (`"invalid input: "`, `"invalid config: "` or `"invalid ForestIR: "`).
    pub fn message(&self) -> (r: String)
        ensures
            r@ == self.message_spec(),
    {
        match self {
            SylvaError::InvalidInput(m) => String::from_str("invalid input: ").concat(m.as_str()),
            SylvaError::InvalidConfig(m) => String::from_str("invalid config: ").concat(m.as_str()),
            SylvaError::InvalidIr(m) => String::from_str("invalid ForestIR: ").concat(m.as_str()),
        }
    }

    /// The message that [`SylvaError::message`] renders.
    pub open spec fn message_spec(&self) -> Seq<char> {
        match self {
            SylvaError::InvalidInput(m) => "invalid input: "@ + m@,
            SylvaError::InvalidConfig(m) => "invalid config: "@ + m@,
            SylvaError::InvalidIr(m) => "invalid ForestIR: "@ + m@,
        }
    }
}

/// A `String` holding the given text.
pub fn text(s: &str) -> (r: String)
    ensures
        r@ == s@,
{
    String::from_str(s)
}

/// The decimal digit character for `d < 10`.
pub open spec fn digit_char(d: nat) -> char {
    if d == 0 {
        '0'
    } else if d == 1 {
        '1'
    } else if d == 2 {
        '2'
    } else if d == 3 {
        '3'
    } else if d == 4 {
        '4'
    } else if d == 5 {
        '5'
    } else if d == 6 {
        '6'
    } else if d == 7 {
        '7'
    } else if d == 8 {
        '8'
    } else {
        '9'
    }
}

/// The decimal rendering of `n`, as `Display` writes an unsigned integer:
/// its digits, most significant first, without sign or separators.
pub open spec fn decimal(n: nat) -> Seq<char>
    decreases n,
{
    if n < 10 {
        seq![digit_char(n)]
    } else {
        decimal(n / 10).push(digit_char(n % 10))
    }
}

/// The one-character text of the digit `d`.
fn digit_text(d: usize) -> (s: &'static str)
    requires
        d < 10,
    ensures
        s@ == seq![digit_char(d as nat)],
{
    proof {
        reveal_strlit("0");
        reveal_strlit("1");
        reveal_strlit("2");
        reveal_strlit("3");
        reveal_strlit("4");
        reveal_strlit("5");
        reveal_strlit("6");
        reveal_strlit("7");
        reveal_strlit("8");
        reveal_strlit("9");
    }
    match d {
        0 => "0",
        1 => "1",
        2 => "2",
        3 => "3",
        4 => "4",
        5 => "5",
        6 => "6",
        7 => "7",
        8 => "8",
        _ => "9",
    }
}

/// `n` rendered in decimal.
pub fn decimal_text(n: usize) -> (r: String)
    ensures
        r@ == decimal(n as nat),
    decreases n,
{
    if n < 10 {
        String::from_str(digit_text(n))
    } else {
        let mut s = decimal_text(n / 10);
        s.append(digit_text(n % 10));
        s
    }
}

} // verus!
