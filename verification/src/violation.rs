//! The violations that a check of the connection identities can find, and
//! the lines of text that report them.

use crate::pil::PilConnectionIdentity;
use vstd::prelude::*;

verus! {

/// A violation of a connection identity.
#[derive(Clone, Copy, Debug, PartialEq, Eq, Structural)]
pub enum Violation {
    /// The source value `v1` at row `i` of source `j` is wired to row `cw` of
    /// source `cp`, which holds the different value `v2`.
    ConnectionMismatch {
        identity: usize,
        j: usize,
        i: usize,
        cp: usize,
        cw: usize,
        v1: u64,
        v2: u64,
    },
    /// The destination at row `i` of column `j` is in none of the cosets;
    /// `v1` is the source value of that row.
    InvalidCopyValue { identity: usize, j: usize, i: usize, v1: u64 },
}

/// The decimal digit that writes `d`.
pub open spec fn digit_char(d: nat) -> char {
    if d == 0 {
        '0'
    } else if d == 1 {
        '1'
    } else if d == 2 {
        '2'
    } else if d == 3 {
        '3'
    } else if d == 4 {
        '4'
    } else if d == 5 {
        '5'
    } else if d == 6 {
        '6'
    } else if d == 7 {
        '7'
    } else if d == 8 {
        '8'
    } else {
        '9'
    }
}

/// The decimal numeral of `x`, without leading zeros.
pub open spec fn decimal_digits(x: nat) -> Seq<char>
    decreases x,
{
    if x < 10 {
        seq![digit_char(x)]
    } else {
        decimal_digits(x / 10).push(digit_char(x % 10))
    }
}

fn digit_text(d: u64) -> (r: &'static str)
    requires
        d < 10,
    ensures
        r@ == seq![digit_char(d as nat)],
{
    proof {
        reveal_strlit("0");
        reveal_strlit("1");
        reveal_strlit("2");
        reveal_strlit("3");
        reveal_strlit("4");
        reveal_strlit("5");
        reveal_strlit("6");
        reveal_strlit("7");
        reveal_strlit("8");
        reveal_strlit("9");
    }
    let r = if d == 0 {
        "0"
    } else if d == 1 {
        "1"
    } else if d == 2 {
        "2"
    } else if d == 3 {
        "3"
    } else if d == 4 {
        "4"
    } else if d == 5 {
        "5"
    } else if d == 6 {
        "6"
    } else if d == 7 {
        "7"
    } else if d == 8 {
        "8"
    } else {
        "9"
    };
    assert(r@ =~= seq![digit_char(d as nat)]);
    r
}

/// Writes `x` as a decimal numeral.
pub fn decimal_string(x: u64) -> (s: String)
    ensures
        s@ == decimal_digits(x as nat),
    decreases x,
{
    if x < 10 {
        String::from_str(digit_text(x))
    } else {
        let mut s = decimal_string(x / 10);
        s.append(digit_text(x % 10));
        assert(s@ =~= decimal_digits((x / 10) as nat).push(digit_char((x % 10) as nat)));
        s
    }
}

/// The start of every report: the file and the line of the identity.
pub open spec fn located(ci: PilConnectionIdentity) -> Seq<char> {
    ci.file_name@ + ":"@ + decimal_digits(ci.line as nat)
}

/// The line of text that reports the violation `v` of the identity `ci`.
pub open spec fn report_of(ci: PilConnectionIdentity, v: Violation) -> Seq<char> {
    match v {
        Violation::ConnectionMismatch { identity, j, i, cp, cw, v1, v2 } => located(ci)
            + ": connection does not match p1="@ + decimal_digits(j as nat) + " w1="@
            + decimal_digits(i as nat) + " p2="@ + decimal_digits(cp as nat) + " w2="@
            + decimal_digits(cw as nat) + " val= "@ + decimal_digits(v1 as nat) + " != "@
            + decimal_digits(v2 as nat),
        Violation::InvalidCopyValue { identity, j, i, v1 } => located(ci)
            + ": invalid copy value w="@ + decimal_digits(j as nat) + ","@ + decimal_digits(
            i as nat,
        ) + " val="@ + decimal_digits(v1 as nat),
    }
}

impl Violation {
    /// The identity that is violated, by its place in the program.
    pub open spec fn identity_index(self) -> usize {
        match self {
            Violation::ConnectionMismatch { identity, .. } => identity,
            Violation::InvalidCopyValue { identity, .. } => identity,
        }
    }

    /// The identity that is violated, by its place in the program.
    pub fn identity(&self) -> (r: usize)
        ensures
            r == self.identity_index(),
    {
        match self {
            Violation::ConnectionMismatch { identity, .. } => *identity,
            Violation::InvalidCopyValue { identity, .. } => *identity,
        }
    }

    /// The line of text that reports this violation of the identity `ci`.
    pub fn report(&self, ci: &PilConnectionIdentity) -> (s: String)
        ensures
            s@ == report_of(*ci, *self),
    {
        let mut s = ci.file_name.clone();
        s.append(":");
        s.append(decimal_string(ci.line as u64).as_str());
        match self {
            Violation::ConnectionMismatch { identity, j, i, cp, cw, v1, v2 } => {
                s.append(": connection does not match p1=");
                s.append(decimal_string(*j as u64).as_str());
                s.append(" w1=");
                s.append(decimal_string(*i as u64).as_str());
                s.append(" p2=");
                s.append(decimal_string(*cp as u64).as_str());
                s.append(" w2=");
                s.append(decimal_string(*cw as u64).as_str());
                s.append(" val= ");
                s.append(decimal_string(*v1).as_str());
                s.append(" != ");
                s.append(decimal_string(*v2).as_str());
            },
            Violation::InvalidCopyValue { identity, j, i, v1 } => {
                s.append(": invalid copy value w=");
                s.append(decimal_string(*j as u64).as_str());
                s.append(",");
                s.append(decimal_string(*i as u64).as_str());
                s.append(" val=");
                s.append(decimal_string(*v1).as_str());
            },
        }
        s
    }
}

} // verus!
