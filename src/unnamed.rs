//! Lambda terms whose variables are de Bruijn indices: `Var(i)` under `d`
//! binders refers to the binder `i` steps out when `i < d`, and to the free
//! variable `i - d` otherwise.

use vstd::prelude::*;

verus! {

/// A lambda term over de Bruijn indices.
#[derive(Debug, PartialEq, Eq)]
pub enum Term {
    Var(usize),
    Apply(Box<Term>, Box<Term>),
    Lambda(Box<Term>),
}

impl Term {
    /// Number of nodes.
    pub open spec fn size(self) -> nat
        decreases self,
    {
        match self {
            Term::Var(_) => 1,
            Term::Apply(a, b) => 1 + a.size() + b.size(),
            Term::Lambda(b) => 1 + b.size(),
        }
    }

    /// Whether every variable refers to a binder, given `depth` binders
    /// around the term.
    pub open spec fn closed_at(self, depth: nat) -> bool
        decreases self,
    {
        match self {
            Term::Var(i) => i < depth,
            Term::Apply(a, b) => a.closed_at(depth) && b.closed_at(depth),
            Term::Lambda(b) => b.closed_at(depth + 1),
        }
    }

    /// Adds one to every index that reaches past the `cutoff` binders
    /// around it (counting the binders inside the term as it descends). The
    /// largest index is left as it is: it cannot be raised.
    pub open spec fn shifted(self, cutoff: int) -> Term
        decreases self,
    {
        match self {
            Term::Var(i) => if i < cutoff || i == usize::MAX {
                self
            } else {
                Term::Var((i + 1) as usize)
            },
            Term::Apply(a, b) => Term::Apply(
                Box::new(a.shifted(cutoff)),
                Box::new(b.shifted(cutoff)),
            ),
            Term::Lambda(b) => Term::Lambda(Box::new(b.shifted(cutoff + 1))),
        }
    }

    /// `self[target := s]`: each occurrence of index `target` becomes `s`;
    /// under a binder the target is one more and `s` is shifted past it.
    pub open spec fn subst(self, target: int, s: Term) -> Term
        decreases self,
    {
        match self {
            Term::Var(i) => if i == target {
                s
            } else {
                self
            },
            Term::Apply(a, b) => Term::Apply(
                Box::new(a.subst(target, s)),
                Box::new(b.subst(target, s)),
            ),
            Term::Lambda(b) => Term::Lambda(Box::new(b.subst(target + 1, s.shifted(0)))),
        }
    }

    /// A cutoff beyond every index shifts nothing.
    pub proof fn lemma_shift_beyond(self, cutoff: int)
        requires
            cutoff > usize::MAX,
        ensures
            self.shifted(cutoff) == self,
        decreases self,
    {
        match self {
            Term::Var(_) => {},
            Term::Apply(a, b) => {
                a.lemma_shift_beyond(cutoff);
                b.lemma_shift_beyond(cutoff);
            },
            Term::Lambda(b) => {
                b.lemma_shift_beyond(cutoff + 1);
            },
        }
    }

    /// A target beyond every index is replaced nowhere.
    pub proof fn lemma_subst_beyond(self, target: int, s: Term)
        requires
            target > usize::MAX,
        ensures
            self.subst(target, s) == self,
        decreases self,
    {
        match self {
            Term::Var(_) => {},
            Term::Apply(a, b) => {
                a.lemma_subst_beyond(target, s);
                b.lemma_subst_beyond(target, s);
            },
            Term::Lambda(b) => {
                b.lemma_subst_beyond(target + 1, s.shifted(0));
            },
        }
    }

    pub fn var(n: usize) -> (r: Term)
        ensures
            r == Term::Var(n),
    {
        Term::Var(n)
    }

    pub fn apply(t1: Term, t2: Term) -> (r: Term)
        ensures
            r == Term::Apply(Box::new(t1), Box::new(t2)),
    {
        Term::Apply(Box::new(t1), Box::new(t2))
    }

    pub fn lambda(t: Term) -> (r: Term)
        ensures
            r == Term::Lambda(Box::new(t)),
    {
        Term::Lambda(Box::new(t))
    }

    /// The term with its free indices (those reaching past `from` binders)
    /// raised by one.
    fn raise(&self, from: usize) -> (r: Term)
        ensures
            r == self.shifted(from as int),
        decreases self,
    {
        match self {
            Term::Var(x) => {
                if *x < from || *x == usize::MAX {
                    Term::Var(*x)
                } else {
                    Term::Var(*x + 1)
                }
            },
            Term::Apply(t1, t2) => Term::apply(t1.raise(from), t2.raise(from)),
            Term::Lambda(t) => match from.checked_add(1) {
                Some(inner) => Term::lambda(t.raise(inner)),
                None => {
                    proof {
                        (**t).lemma_shift_beyond(from + 1);
                    }
                    Term::lambda((**t).clone())
                },
            },
        }
    }

    /// The substitution `self[var := subs]`.
    pub fn substitute(&self, var: usize, subs: &Term) -> (r: Term)
        ensures
            r == self.subst(var as int, *subs),
        decreases self,
    {
        match self {
            Term::Var(x) => {
                if *x == var {
                    subs.clone()
                } else {
                    Term::Var(*x)
                }
            },
            Term::Apply(t1, t2) => Term::apply(t1.substitute(var, subs), t2.substitute(var, subs)),
            Term::Lambda(t) => match var.checked_add(1) {
                Some(inner) => Term::lambda(t.substitute(inner, &subs.raise(0))),
                None => {
                    proof {
                        (**t).lemma_subst_beyond(var + 1, subs.shifted(0));
                    }
                    Term::lambda((**t).clone())
                },
            },
        }
    }
}

impl Clone for Term {
    fn clone(&self) -> (r: Term)
        ensures
            r == *self,
        decreases self,
    {
        match self {
            Term::Var(x) => Term::Var(*x),
            Term::Apply(a, b) => Term::Apply(Box::new((**a).clone()), Box::new((**b).clone())),
            Term::Lambda(b) => Term::Lambda(Box::new((**b).clone())),
        }
    }
}

/// The substitution `term[var := subs]`.
pub fn substitute(term: &Term, var: usize, subs: &Term) -> (r: Term)
    ensures
        r == term.subst(var as int, *subs),
{
    term.substitute(var, subs)
}

} // verus!
