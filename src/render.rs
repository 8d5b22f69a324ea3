use vstd::prelude::*;

use crate::term::{Henk, Term};
use crate::typing::{Fault, TypeError};

verus! {

/// The character of a decimal digit.
pub open spec fn digit_char(d: nat) -> char {
    if d == 0 { '0' }
    else if d == 1 { '1' }
    else if d == 2 { '2' }
    else if d == 3 { '3' }
    else if d == 4 { '4' }
    else if d == 5 { '5' }
    else if d == 6 { '6' }
    else if d == 7 { '7' }
    else if d == 8 { '8' }
    else { '9' }
}

/// The decimal digits of `n`, without leading zeros.
pub open spec fn digits(n: nat) -> Seq<char>
    decreases n,
{
    if n < 10 {
        seq![digit_char(n)]
    } else {
        digits(n / 10).push(digit_char(n % 10))
    }
}

/// `n` in decimal, with a minus sign when it is negative.
pub open spec fn decimal(n: int) -> Seq<char> {
    if n < 0 {
        seq!['-'] + digits((-n) as nat)
    } else {
        digits(n as nat)
    }
}

impl Term {
    /// The text of a term: `Universe n`, `x`, `(a b)`, `(\x: t. e)`, `(x: t) -> c`.
    pub open spec fn show(self) -> Seq<char>
        decreases self,
    {
        match self {
            Term::Universe(n) => "Universe "@ + decimal(n),
            Term::Var(x) => x,
            Term::App(a, b) => "("@ + a.show() + " "@ + b.show() + ")"@,
            Term::Lam(x, d, e) => "(\\"@ + x + ": "@ + d.show() + ". "@ + e.show() + ")"@,
            Term::Pi(x, d, c) => "("@ + x + ": "@ + d.show() + ") -> "@ + c.show(),
        }
    }
}

/// The diagnostic that a typing fault is reported with.
pub open spec fn fault_text(f: Fault) -> Seq<char> {
    match f {
        Fault::UnknownVariable(x) => "Cannot find variable "@ + x,
        Fault::ArgTypeMismatch(expected, got) => "Expected something of type "@ + expected.show()
            + ", found that of type "@ + got.show(),
        Fault::NotAFunction(t) => "Expected lambda, found value of type "@ + t.show(),
        Fault::NotAType(t) => "Expected a type, found value of type "@ + t.show(),
        Fault::OutOfFuel => "Normalization ran out of steps"@,
    }
}

fn digit_str(d: u64) -> (r: &'static str)
    requires
        d < 10,
    ensures
        r@ == seq![digit_char(d as nat)],
{
    proof {
        reveal_strlit("0");
        reveal_strlit("1");
        reveal_strlit("2");
        reveal_strlit("3");
        reveal_strlit("4");
        reveal_strlit("5");
        reveal_strlit("6");
        reveal_strlit("7");
        reveal_strlit("8");
        reveal_strlit("9");
    }
    if d == 0 { "0" }
    else if d == 1 { "1" }
    else if d == 2 { "2" }
    else if d == 3 { "3" }
    else if d == 4 { "4" }
    else if d == 5 { "5" }
    else if d == 6 { "6" }
    else if d == 7 { "7" }
    else if d == 8 { "8" }
    else { "9" }
}

fn push_digits(n: u64, out: &mut String)
    ensures
        final(out)@ == old(out)@ + digits(n as nat),
    decreases n,
{
    if n >= 10 {
        push_digits(n / 10, out);
    }
    let ghost before = out@;
    out.append(digit_str(n % 10));
    proof {
        if n >= 10 {
            assert(out@ =~= old(out)@ + digits(n as nat));
        } else {
            assert(out@ =~= old(out)@ + digits(n as nat));
        }
    }
}

/// Appends `n` in decimal to `out`.
fn push_decimal(n: i64, out: &mut String)
    ensures
        final(out)@ == old(out)@ + decimal(n as int),
{
    if n < 0 {
        proof {
            reveal_strlit("-");
        }
        out.append("-");
        let m: u64 = (-(n as i128)) as u64;
        push_digits(m, out);
        assert(out@ =~= old(out)@ + decimal(n as int));
    } else {
        push_digits(n as u64, out);
    }
}

impl Henk {
    fn push_text(&self, out: &mut String)
        ensures
            final(out)@ == old(out)@ + self@.show(),
        decreases self,
    {
        proof {
            reveal_strlit("Universe ");
            reveal_strlit("(");
            reveal_strlit(")");
            reveal_strlit(" ");
            reveal_strlit("(\\");
            reveal_strlit(": ");
            reveal_strlit(". ");
            reveal_strlit(") -> ");
        }
        match self {
            Henk::Universe(n) => {
                out.append("Universe ");
                push_decimal(*n, out);
            },
            Henk::Variable(x) => {
                out.append(x.as_str());
            },
            Henk::App(a, b) => {
                out.append("(");
                a.push_text(out);
                out.append(" ");
                b.push_text(out);
                out.append(")");
            },
            Henk::Lambda(x, d, e) => {
                out.append("(\\");
                out.append(x.as_str());
                out.append(": ");
                d.push_text(out);
                out.append(". ");
                e.push_text(out);
                out.append(")");
            },
            Henk::Forall(x, d, c) => {
                out.append("(");
                out.append(x.as_str());
                out.append(": ");
                d.push_text(out);
                out.append(") -> ");
                c.push_text(out);
            },
        }
        assert(out@ =~= old(out)@ + self@.show());
    }

    /// The text of this term, as diagnostics show it.
    pub fn render(&self) -> (r: String)
        ensures
            r@ == self@.show(),
    {
        let mut out = String::new();
        self.push_text(&mut out);
        assert(out@ =~= self@.show());
        out
    }
}

impl TypeError {
    /// The diagnostic for this error.
    pub fn message(&self) -> (r: String)
        ensures
            r@ == fault_text(self@),
    {
        proof {
            reveal_strlit("Cannot find variable ");
            reveal_strlit("Expected something of type ");
            reveal_strlit(", found that of type ");
            reveal_strlit("Expected lambda, found value of type ");
            reveal_strlit("Expected a type, found value of type ");
            reveal_strlit("Normalization ran out of steps");
        }
        let mut out = String::new();
        match self {
            TypeError::UnknownVariable(x) => {
                out.append("Cannot find variable ");
                out.append(x.as_str());
            },
            TypeError::ArgTypeMismatch(expected, got) => {
                out.append("Expected something of type ");
                expected.push_text(&mut out);
                out.append(", found that of type ");
                got.push_text(&mut out);
            },
            TypeError::NotAFunction(t) => {
                out.append("Expected lambda, found value of type ");
                t.push_text(&mut out);
            },
            TypeError::NotAType(t) => {
                out.append("Expected a type, found value of type ");
                t.push_text(&mut out);
            },
            TypeError::OutOfFuel => {
                out.append("Normalization ran out of steps");
            },
        }
        assert(out@ =~= fault_text(self@));
        out
    }
}

} // verus!
