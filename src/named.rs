//! Lambda terms whose variables are referred to by name.

use vstd::prelude::*;
use crate::names::{
    first_unused, is_first_unused, lemma_first_unused, lemma_names_fill, name_of,
    LexicographicalNames,
};

verus! {

/// A lambda term over variable names.
#[derive(Debug, PartialEq, Eq)]
pub enum Term {
    Var(String),
    Apply(Box<Term>, Box<Term>),
    Lambda(String, Box<Term>),
}

/// The mathematical value of a [`Term`]: the same tree, names as character
/// sequences.
pub enum TermView {
    Var(Seq<char>),
    Apply(Box<TermView>, Box<TermView>),
    Lambda(Seq<char>, Box<TermView>),
}

pub open spec fn view_of(t: Term) -> TermView
    decreases t,
{
    match t {
        Term::Var(x) => TermView::Var(x@),
        Term::Apply(a, b) => TermView::Apply(Box::new(view_of(*a)), Box::new(view_of(*b))),
        Term::Lambda(x, b) => TermView::Lambda(x@, Box::new(view_of(*b))),
    }
}

impl View for Term {
    type V = TermView;

    open spec fn view(&self) -> TermView {
        view_of(*self)
    }
}

/// The names held by a sequence of strings, in order.
pub open spec fn strs(s: Seq<String>) -> Seq<Seq<char>> {
    s.map_values(|x: String| x@)
}

/// The names held by a sequence of strings, as a set.
pub open spec fn views(s: Seq<String>) -> Set<Seq<char>> {
    strs(s).to_set()
}

pub proof fn lemma_views_push(s: Seq<String>, x: String)
    ensures
        views(s.push(x)) == views(s).insert(x@),
{
    assert(strs(s.push(x)) =~= strs(s).push(x@));
    assert(views(s.push(x)) =~= views(s).insert(x@)) by {
        let m = strs(s);
        assert forall|n: Seq<char>| views(s).insert(x@).contains(n) implies views(s.push(x)).contains(n) by {
            if n != x@ {
                let i = choose|i: int| 0 <= i < m.len() && m[i] == n;
                assert(m.push(x@)[i] == n);
            } else {
                assert(m.push(x@)[m.len() as int] == n);
            }
        }
    }
}

/// The letters that binder names are made of.
pub open spec fn bound_letters() -> Seq<char> {
    seq!['x', 'y', 'z', 'w', 'u', 'v', 'r', 's', 't']
}

/// The letters that names of free variables are made of.
pub open spec fn free_letters() -> Seq<char> {
    seq!['a', 'b', 'c', 'd', 'e', 'f', 'g', 'h', 'i', 'j', 'k', 'l', 'm', 'n', 'o', 'p', 'q']
}

pub proof fn lemma_bound_letters_distinct()
    ensures
        bound_letters().len() == 9,
        bound_letters().no_duplicates(),
{
    let b = bound_letters();
    assert(b[0] == 'x' && b[1] == 'y' && b[2] == 'z' && b[3] == 'w' && b[4] == 'u');
    assert(b[5] == 'v' && b[6] == 'r' && b[7] == 's' && b[8] == 't');
    assert forall|i: int, j: int| 0 <= i < b.len() && 0 <= j < b.len() && i != j implies b[i]
        != b[j] by {
        assert(i == 0 || i == 1 || i == 2 || i == 3 || i == 4 || i == 5 || i == 6 || i == 7
            || i == 8);
        assert(j == 0 || j == 1 || j == 2 || j == 3 || j == 4 || j == 5 || j == 6 || j == 7
            || j == 8);
    }
}

pub(crate) fn bound_letter_vec() -> (r: Vec<char>)
    ensures
        r@ == bound_letters(),
{
    let r = vec!['x', 'y', 'z', 'w', 'u', 'v', 'r', 's', 't'];
    assert(r@ =~= bound_letters());
    r
}

pub(crate) fn free_letter_vec() -> (r: Vec<char>)
    ensures
        r@ == free_letters(),
{
    let r = vec!['a', 'b', 'c', 'd', 'e', 'f', 'g', 'h', 'i', 'j', 'k', 'l', 'm', 'n', 'o', 'p', 'q'];
    assert(r@ =~= free_letters());
    r
}

/// The name given to a binder that would capture a free variable: the first
/// name of the binder supply (from index 1) outside `avoid`.
pub open spec fn fresh_binder(avoid: Set<Seq<char>>) -> Seq<char> {
    name_of(bound_letters(), first_unused(bound_letters(), avoid))
}

/// Searches the binder supply for the first name that no string of
/// `avoid` holds.
fn fresh_binder_for(avoid: &Vec<String>) -> (r: String)
    ensures
        r@ == fresh_binder(views(avoid@)),
{
    let letters = bound_letter_vec();
    let supply = LexicographicalNames::new(letters.as_slice());
    let ghost taken = views(avoid@);
    proof {
        lemma_bound_letters_distinct();
        lemma_first_unused(bound_letters(), taken);
        strs(avoid@).lemma_cardinality_of_set();
    }
    let count = avoid.len();
    let mut j: usize = 0;
    loop
        invariant
            count == avoid@.len(),
            supply.alphabet() == bound_letters(),
            bound_letters().len() > 0,
            bound_letters().no_duplicates(),
            taken == views(avoid@),
            taken.finite(),
            taken.len() <= avoid@.len(),
            forall|i: nat| is_first_unused(bound_letters(), taken, i) ==> i == first_unused(bound_letters(), taken),
            forall|i: nat| 1 <= i <= j ==> taken.contains(#[trigger] name_of(bound_letters(), i)),
        decreases avoid@.len() - j,
    {
        let candidate = supply.get_after(j);
        if !contains_name(avoid, &candidate) {
            assert(is_first_unused(bound_letters(), taken, j as nat + 1));
            return candidate;
        }
        proof {
            lemma_names_fill(bound_letters(), taken, j as nat + 1);
        }
        j = j + 1;
    }
}

impl TermView {
    /// Number of nodes.
    pub open spec fn size(self) -> nat
        decreases self,
    {
        match self {
            TermView::Var(_) => 1,
            TermView::Apply(a, b) => 1 + a.size() + b.size(),
            TermView::Lambda(_, b) => 1 + b.size(),
        }
    }

    /// The names that occur in the term outside the scope of a binder of
    /// the same name.
    pub open spec fn free_vars(self) -> Set<Seq<char>>
        decreases self,
    {
        match self {
            TermView::Var(x) => set![x],
            TermView::Apply(a, b) => a.free_vars().union(b.free_vars()),
            TermView::Lambda(x, b) => b.free_vars().remove(x),
        }
    }

    /// `self[v := s]` computed with at most `fuel` levels of recursion;
    /// enough fuel is the size of `self` (see [`TermView::subst`]).
    pub open spec fn subst_fuel(self, v: Seq<char>, s: TermView, fuel: nat) -> TermView
        decreases fuel,
    {
        if fuel == 0 {
            self
        } else {
            let f = (fuel - 1) as nat;
            match self {
                TermView::Var(x) => if x == v {
                    s
                } else {
                    self
                },
                TermView::Apply(a, b) => TermView::Apply(
                    Box::new(a.subst_fuel(v, s, f)),
                    Box::new(b.subst_fuel(v, s, f)),
                ),
                TermView::Lambda(x, b) => if x == v {
                    self
                } else if s.free_vars().contains(x) {
                    let y = fresh_binder(s.free_vars().union(b.free_vars()));
                    TermView::Lambda(
                        y,
                        Box::new(b.subst_fuel(x, TermView::Var(y), f).subst_fuel(v, s, f)),
                    )
                } else {
                    TermView::Lambda(x, Box::new(b.subst_fuel(v, s, f)))
                },
            }
        }
    }

    /// Capture-avoiding substitution `self[v := s]`: every free occurrence
    /// of `v` becomes `s`. A binder of `v` stops it. A binder `x` that is free
    /// in `s` is first renamed to [`fresh_binder`] of the free variables of
    /// `s` and of its body, by the same substitution of the new name for `x`.
    pub open spec fn subst(self, v: Seq<char>, s: TermView) -> TermView {
        self.subst_fuel(v, s, self.size())
    }

    /// Substituting a variable leaves the size unchanged.
    pub proof fn lemma_subst_var_size(self, v: Seq<char>, s: TermView, fuel: nat)
        requires
            s is Var,
        ensures
            self.subst_fuel(v, s, fuel).size() == self.size(),
        decreases fuel,
    {
        if fuel > 0 {
            let f = (fuel - 1) as nat;
            match self {
                TermView::Var(_) => {},
                TermView::Apply(a, b) => {
                    a.lemma_subst_var_size(v, s, f);
                    b.lemma_subst_var_size(v, s, f);
                },
                TermView::Lambda(x, b) => {
                    if x != v {
                        if s.free_vars().contains(x) {
                            let y = fresh_binder(s.free_vars().union(b.free_vars()));
                            b.lemma_subst_var_size(x, TermView::Var(y), f);
                            b.subst_fuel(x, TermView::Var(y), f).lemma_subst_var_size(v, s, f);
                        } else {
                            b.lemma_subst_var_size(v, s, f);
                        }
                    }
                },
            }
        }
    }

    /// Any fuel of at least the size gives the same result.
    pub proof fn lemma_subst_fuel(self, v: Seq<char>, s: TermView, fuel: nat)
        requires
            fuel >= self.size(),
        ensures
            self.subst_fuel(v, s, fuel) == self.subst(v, s),
        decreases self.size(),
    {
        let n = self.size();
        let f = (fuel - 1) as nat;
        let g = (n - 1) as nat;
        match self {
            TermView::Var(_) => {},
            TermView::Apply(a, b) => {
                a.lemma_subst_fuel(v, s, f);
                a.lemma_subst_fuel(v, s, g);
                b.lemma_subst_fuel(v, s, f);
                b.lemma_subst_fuel(v, s, g);
            },
            TermView::Lambda(x, b) => {
                if x != v {
                    if s.free_vars().contains(x) {
                        let y = fresh_binder(s.free_vars().union(b.free_vars()));
                        b.lemma_subst_fuel(x, TermView::Var(y), f);
                        b.lemma_subst_fuel(x, TermView::Var(y), g);
                        let renamed = b.subst(x, TermView::Var(y));
                        b.lemma_subst_var_size(x, TermView::Var(y), b.size());
                        renamed.lemma_subst_fuel(v, s, f);
                        renamed.lemma_subst_fuel(v, s, g);
                    } else {
                        b.lemma_subst_fuel(v, s, f);
                        b.lemma_subst_fuel(v, s, g);
                    }
                }
            },
        }
    }

    pub proof fn lemma_free_vars_finite(self)
        ensures
            self.free_vars().finite(),
        decreases self,
    {
        match self {
            TermView::Var(_) => {},
            TermView::Apply(a, b) => {
                a.lemma_free_vars_finite();
                b.lemma_free_vars_finite();
            },
            TermView::Lambda(_, b) => {
                b.lemma_free_vars_finite();
            },
        }
    }
}

impl Clone for Term {
    fn clone(&self) -> (r: Term)
        ensures
            r == *self,
        decreases self,
    {
        match self {
            Term::Var(x) => Term::Var(x.clone()),
            Term::Apply(a, b) => Term::Apply(Box::new((**a).clone()), Box::new((**b).clone())),
            Term::Lambda(x, b) => Term::Lambda(x.clone(), Box::new((**b).clone())),
        }
    }
}

/// Whether one of the strings in `v` equals `x`.
pub(crate) fn contains_name(v: &Vec<String>, x: &String) -> (r: bool)
    ensures
        r == views(v@).contains(x@),
{
    let ghost m = strs(v@);
    let mut i: usize = 0;
    while i < v.len()
        invariant
            i <= v.len(),
            m == strs(v@),
            forall|j: int| 0 <= j < i ==> m[j] != x@,
        decreases v.len() - i,
    {
        if v[i] == *x {
            assert(m[i as int] == x@);
            return true;
        }
        i = i + 1;
    }
    assert(!m.contains(x@));
    false
}

impl Term {
    pub fn var(name: &str) -> (r: Term)
        ensures
            r@ == TermView::Var(name@),
    {
        Term::Var(String::from_str(name))
    }

    pub fn apply(t1: Term, t2: Term) -> (r: Term)
        ensures
            r@ == TermView::Apply(Box::new(t1@), Box::new(t2@)),
    {
        Term::Apply(Box::new(t1), Box::new(t2))
    }

    pub fn lambda(name: &str, t: Term) -> (r: Term)
        ensures
            r@ == TermView::Lambda(name@, Box::new(t@)),
    {
        Term::Lambda(String::from_str(name), Box::new(t))
    }

    /// The capture-avoiding substitution `self[var := subs]`.
    pub fn substitute(&self, var: &str, subs: &Term) -> (r: Term)
        ensures
            r@ == self@.subst(var@, subs@),
    {
        let target = String::from_str(var);
        let fv_subs = subs.free_vars();
        self.substitute_inner(&target, subs, &fv_subs)
    }

    fn substitute_inner(&self, var: &String, subs: &Term, fv_subs: &Vec<String>) -> (r: Term)
        requires
            views(fv_subs@) == subs@.free_vars(),
        ensures
            r@ == self@.subst(var@, subs@),
        decreases self@.size(),
    {
        let ghost f = (self@.size() - 1) as nat;
        match self {
            Term::Var(x) => {
                if *x == *var {
                    subs.clone()
                } else {
                    Term::Var(x.clone())
                }
            },
            Term::Apply(t1, t2) => {
                proof {
                    t1@.lemma_subst_fuel(var@, subs@, f);
                    t2@.lemma_subst_fuel(var@, subs@, f);
                }
                Term::apply(
                    t1.substitute_inner(var, subs, fv_subs),
                    t2.substitute_inner(var, subs, fv_subs),
                )
            },
            Term::Lambda(x, t) => {
                if *x == *var {
                    self.clone()
                } else if contains_name(fv_subs, x) {
                    let mut args: Vec<String> = Vec::new();
                    let mut avoid: Vec<String> = Vec::new();
                    subs.fill_free_vars(&mut args, &mut avoid);
                    t.fill_free_vars(&mut args, &mut avoid);
                    assert(views(Seq::<String>::empty()) =~= Set::empty());
                    assert(views(avoid@) =~= subs@.free_vars().union(t@.free_vars()));
                    let name = fresh_binder_for(&avoid);
                    let fresh = Term::Var(name.clone());
                    let fv_fresh = vec![name.clone()];
                    assert(views(fv_fresh@) =~= fresh@.free_vars()) by {
                        assert(strs(fv_fresh@) =~= seq![name@]);
                        assert(seq![name@].to_set() =~= set![name@]) by {
                            assert(seq![name@][0] == name@);
                        }
                    }
                    let renamed = t.substitute_inner(x, &fresh, &fv_fresh);
                    proof {
                        t@.lemma_subst_fuel(x@, fresh@, f);
                        t@.lemma_subst_var_size(x@, fresh@, t@.size());
                        renamed@.lemma_subst_fuel(var@, subs@, f);
                    }
                    let body = renamed.substitute_inner(var, subs, fv_subs);
                    Term::Lambda(name, Box::new(body))
                } else {
                    proof {
                        t@.lemma_subst_fuel(var@, subs@, f);
                    }
                    Term::Lambda(x.clone(), Box::new(t.substitute_inner(var, subs, fv_subs)))
                }
            },
        }
    }

    /// The free variables of the term, each once.
    pub fn free_vars(&self) -> (r: Vec<String>)
        ensures
            views(r@) == self@.free_vars(),
            strs(r@).no_duplicates(),
    {
        let mut bound: Vec<String> = Vec::new();
        let mut found: Vec<String> = Vec::new();
        self.fill_free_vars(&mut bound, &mut found);
        assert(views(bound@) =~= Set::empty());
        assert(views(Seq::<String>::empty()) =~= Set::empty());
        assert(views(found@) =~= self@.free_vars());
        found
    }

    /// Adds to `fv` the free variables of the term that are not in `args`,
    /// the names of the binders around it.
    fn fill_free_vars(&self, args: &mut Vec<String>, fv: &mut Vec<String>)
        requires
            strs(old(fv)@).no_duplicates(),
        ensures
            strs(final(fv)@).no_duplicates(),
            final(args)@ == old(args)@,
            views(final(fv)@) == views(old(fv)@).union(
                self@.free_vars().difference(views(old(args)@)),
            ),
        decreases self,
    {
        match self {
            Term::Var(x) => {
                if !contains_name(args, x) && !contains_name(fv, x) {
                    proof {
                        lemma_views_push(fv@, *x);
                        assert(!strs(fv@).contains(x@));
                    }
                    fv.push(x.clone());
                    assert(strs(fv@) =~= strs(old(fv)@).push(x@));
                }
                assert(views(fv@) =~= views(old(fv)@).union(
                    self@.free_vars().difference(views(old(args)@)),
                ));
            },
            Term::Apply(t1, t2) => {
                t1.fill_free_vars(args, fv);
                t2.fill_free_vars(args, fv);
                assert(views(fv@) =~= views(old(fv)@).union(
                    self@.free_vars().difference(views(old(args)@)),
                ));
            },
            Term::Lambda(x, t) => {
                proof {
                    lemma_views_push(args@, *x);
                }
                args.push(x.clone());
                t.fill_free_vars(args, fv);
                args.pop();
                assert(args@ =~= old(args)@);
                assert(views(fv@) =~= views(old(fv)@).union(
                    self@.free_vars().difference(views(old(args)@)),
                ));
            },
        }
    }
}

} // verus!
