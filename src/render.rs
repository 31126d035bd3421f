//! Canonical text of terms: `x`, `M N`, `λ x. M` for named terms and `i`,
//! `M N`, `λ M` for de Bruijn terms.

use vstd::prelude::*;
use crate::named::{self, TermView};
use crate::text::{push_char, string_of_reversed};
use crate::unnamed;

verus! {

/// `s` between parentheses.
pub open spec fn parens(s: Seq<char>) -> Seq<char> {
    seq!['('] + s + seq![')']
}

/// The decimal digit `d`.
pub open spec fn digit(d: nat) -> char {
    seq!['0', '1', '2', '3', '4', '5', '6', '7', '8', '9'][d as int]
}

/// The decimal numeral of `n`, without leading zeros.
pub open spec fn decimal(n: nat) -> Seq<char>
    decreases n,
{
    if n < 10 {
        seq![digit(n)]
    } else {
        decimal(n / 10).push(digit(n % 10))
    }
}

/// An application prints its function bare when it is a variable or an
/// application, its argument bare when it is a variable; anything else goes
/// between parentheses.
pub open spec fn apply_text(
    left: Seq<char>,
    left_bare: bool,
    right: Seq<char>,
    right_bare: bool,
) -> Seq<char> {
    (if left_bare {
        left
    } else {
        parens(left)
    }) + seq![' '] + (if right_bare {
        right
    } else {
        parens(right)
    })
}

impl TermView {
    /// The canonical text of a named term.
    pub open spec fn text(self) -> Seq<char>
        decreases self,
    {
        match self {
            TermView::Var(x) => x,
            TermView::Apply(a, b) => apply_text(a.text(), !(*a is Lambda), b.text(), *b is Var),
            TermView::Lambda(x, b) => seq!['\u{3bb}', ' '] + x + seq!['.', ' '] + b.text(),
        }
    }
}

impl unnamed::Term {
    /// The canonical text of a de Bruijn term; the body of a binder is bare
    /// when it is a variable or a binder.
    pub open spec fn text(self) -> Seq<char>
        decreases self,
    {
        match self {
            unnamed::Term::Var(i) => decimal(i as nat),
            unnamed::Term::Apply(a, b) => apply_text(a.text(), !(*a is Lambda), b.text(), *b is Var),
            unnamed::Term::Lambda(b) => seq!['\u{3bb}', ' '] + (if *b is Apply {
                parens(b.text())
            } else {
                b.text()
            }),
        }
    }

    /// The canonical text of the term.
    pub fn render(&self) -> (r: String)
        ensures
            r@ == self.text(),
    {
        let mut out = String::new();
        self.write_text(&mut out);
        assert(out@ =~= self.text());
        out
    }

    fn write_text(&self, out: &mut String)
        ensures
            final(out)@ == old(out)@ + self.text(),
        decreases self, 0nat,
    {
        match self {
            unnamed::Term::Var(i) => {
                push_decimal(out, *i);
            },
            unnamed::Term::Apply(a, b) => {
                write_operand(out, a, !matches!(**a, unnamed::Term::Lambda(_)));
                push_char(out, ' ');
                write_operand(out, b, matches!(**b, unnamed::Term::Var(_)));
                assert(out@ =~= old(out)@ + self.text());
            },
            unnamed::Term::Lambda(b) => {
                push_char(out, '\u{3bb}');
                push_char(out, ' ');
                write_operand(out, b, !matches!(**b, unnamed::Term::Apply(_, _)));
                assert(out@ =~= old(out)@ + self.text());
            },
        }
    }
}

/// Writes `t`, between parentheses unless `bare`.
fn write_operand(out: &mut String, t: &unnamed::Term, bare: bool)
    ensures
        final(out)@ == old(out)@ + if bare {
            t.text()
        } else {
            parens(t.text())
        },
    decreases t, 1nat,
{
    if bare {
        t.write_text(out);
    } else {
        push_char(out, '(');
        t.write_text(out);
        push_char(out, ')');
        assert(out@ =~= old(out)@ + parens(t.text()));
    }
}

impl named::Term {
    /// The canonical text of the term.
    pub fn render(&self) -> (r: String)
        ensures
            r@ == self@.text(),
    {
        let mut out = String::new();
        self.write_text(&mut out);
        assert(out@ =~= self@.text());
        out
    }

    fn write_text(&self, out: &mut String)
        ensures
            final(out)@ == old(out)@ + self@.text(),
        decreases self, 0nat,
    {
        match self {
            named::Term::Var(x) => {
                out.append(x.as_str());
            },
            named::Term::Apply(a, b) => {
                write_named_operand(out, a, !matches!(**a, named::Term::Lambda(_, _)));
                push_char(out, ' ');
                write_named_operand(out, b, matches!(**b, named::Term::Var(_)));
                assert(out@ =~= old(out)@ + self@.text());
            },
            named::Term::Lambda(x, b) => {
                push_char(out, '\u{3bb}');
                push_char(out, ' ');
                out.append(x.as_str());
                push_char(out, '.');
                push_char(out, ' ');
                b.write_text(out);
                assert(out@ =~= old(out)@ + self@.text());
            },
        }
    }
}

/// Writes `t`, between parentheses unless `bare`.
fn write_named_operand(out: &mut String, t: &named::Term, bare: bool)
    ensures
        final(out)@ == old(out)@ + if bare {
            t@.text()
        } else {
            parens(t@.text())
        },
    decreases t, 1nat,
{
    if bare {
        t.write_text(out);
    } else {
        push_char(out, '(');
        t.write_text(out);
        push_char(out, ')');
        assert(out@ =~= old(out)@ + parens(t@.text()));
    }
}

/// Appends the decimal numeral of `n`.
fn push_decimal(out: &mut String, n: usize)
    ensures
        final(out)@ == old(out)@ + decimal(n as nat),
{
    let numerals = vec!['0', '1', '2', '3', '4', '5', '6', '7', '8', '9'];
    assert(numerals@ =~= seq!['0', '1', '2', '3', '4', '5', '6', '7', '8', '9']);
    let mut rest: usize = n;
    let mut digits: Vec<char> = Vec::new();
    loop
        invariant_except_break
            numerals@ == seq!['0', '1', '2', '3', '4', '5', '6', '7', '8', '9'],
            decimal(n as nat) == decimal(rest as nat) + digits@.reverse(),
        ensures
            decimal(n as nat) == digits@.reverse(),
        decreases rest,
    {
        let d = numerals[rest % 10];
        let ghost old_digits = digits@;
        digits.push(d);
        assert(digits@.reverse() =~= seq![d] + old_digits.reverse());
        if rest < 10 {
            assert(decimal(rest as nat) =~= seq![d]);
            break;
        }
        rest = rest / 10;
        assert(decimal(n as nat) =~= decimal(rest as nat) + digits@.reverse());
    }
    let s = string_of_reversed(&digits);
    out.append(s.as_str());
}

} // verus!
