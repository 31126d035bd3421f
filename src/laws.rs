//! Properties that relate the operations of the library to each other.

use vstd::prelude::*;
use crate::convert::{first_index, innermost, lemma_innermost, lower, lowered, named_at, named_of};
use crate::named::{
    bound_letters, free_letters, fresh_binder, lemma_bound_letters_distinct, TermView,
};
use crate::names::{lemma_first_unused, lemma_name_of_injective, lemma_name_of_last, name_of};
use crate::unnamed;

verus! {

/// A renamed binder never takes a name it must avoid.
pub proof fn lemma_fresh_binder(avoid: Set<Seq<char>>)
    requires
        avoid.finite(),
    ensures
        !avoid.contains(fresh_binder(avoid)),
{
    lemma_bound_letters_distinct();
    lemma_first_unused(bound_letters(), avoid);
}

/// The free variables that `self[v := s]` should have: those of `self`,
/// and, where `v` is among them, `v` traded for those of `s`.
pub open spec fn expected_free_vars(t: TermView, v: Seq<char>, s: TermView) -> Set<Seq<char>> {
    if t.free_vars().contains(v) {
        t.free_vars().remove(v).union(s.free_vars())
    } else {
        t.free_vars()
    }
}

impl TermView {
    /// Whether computing `self[v := s]` with the given fuel renames, at some
    /// step, a binder `x` that its body uses to the very name being replaced;
    /// the body's `x` is then caught by the replacement.
    pub open spec fn renames_onto_target_fuel(self, v: Seq<char>, s: TermView, fuel: nat) -> bool
        decreases fuel,
    {
        if fuel == 0 {
            false
        } else {
            let f = (fuel - 1) as nat;
            match self {
                TermView::Var(_) => false,
                TermView::Apply(a, b) => a.renames_onto_target_fuel(v, s, f)
                    || b.renames_onto_target_fuel(v, s, f),
                TermView::Lambda(x, b) => if x == v {
                    false
                } else if s.free_vars().contains(x) {
                    let y = fresh_binder(s.free_vars().union(b.free_vars()));
                    ||| y == v && b.free_vars().contains(x)
                    ||| b.renames_onto_target_fuel(x, TermView::Var(y), f)
                    ||| b.subst_fuel(x, TermView::Var(y), f).renames_onto_target_fuel(v, s, f)
                } else {
                    b.renames_onto_target_fuel(v, s, f)
                },
            }
        }
    }

    /// Whether computing `self[v := s]` renames a used binder to `v`
    /// itself (see [`TermView::renames_onto_target_fuel`]).
    pub open spec fn renames_onto_target(self, v: Seq<char>, s: TermView) -> bool {
        self.renames_onto_target_fuel(v, s, self.size())
    }
}

proof fn lemma_subst_free_vars_bounds_fuel(t: TermView, v: Seq<char>, s: TermView, fuel: nat)
    requires
        fuel >= t.size(),
    ensures
        t.free_vars().remove(v).subset_of(t.subst_fuel(v, s, fuel).free_vars()),
        t.subst_fuel(v, s, fuel).free_vars().subset_of(t.free_vars().remove(v).union(s.free_vars())),
        t.free_vars().contains(v) ==> s.free_vars().subset_of(t.subst_fuel(v, s, fuel).free_vars()),
    decreases fuel,
{
    let f = (fuel - 1) as nat;
    match t {
        TermView::Var(x) => {},
        TermView::Apply(a, b) => {
            lemma_subst_free_vars_bounds_fuel(*a, v, s, f);
            lemma_subst_free_vars_bounds_fuel(*b, v, s, f);
        },
        TermView::Lambda(x, b) => {
            if x == v {
            } else if s.free_vars().contains(x) {
                let avoid = s.free_vars().union(b.free_vars());
                let y = fresh_binder(avoid);
                s.lemma_free_vars_finite();
                b.lemma_free_vars_finite();
                lemma_fresh_binder(avoid);
                let renamed = b.subst_fuel(x, TermView::Var(y), f);
                lemma_subst_free_vars_bounds_fuel(*b, x, TermView::Var(y), f);
                b.lemma_subst_var_size(x, TermView::Var(y), f);
                lemma_subst_free_vars_bounds_fuel(renamed, v, s, f);
            } else {
                lemma_subst_free_vars_bounds_fuel(*b, v, s, f);
            }
        },
    }
}

/// No free variable is lost or invented by substitution, whatever names
/// the renaming of binders picks: the free variables of `t[v := s]` include
/// those of `t` other than `v` and lie within those together with the free
/// variables of `s`. When `v` is free in `t` they are exactly those of `t`
/// without `v` together with those of `s`.
pub proof fn lemma_subst_free_vars_bounds(t: TermView, v: Seq<char>, s: TermView)
    ensures
        t.free_vars().remove(v).subset_of(t.subst(v, s).free_vars()),
        t.subst(v, s).free_vars().subset_of(t.free_vars().remove(v).union(s.free_vars())),
        t.free_vars().contains(v) ==> t.subst(v, s).free_vars() == t.free_vars().remove(v).union(
            s.free_vars(),
        ),
{
    lemma_subst_free_vars_bounds_fuel(t, v, s, t.size());
    if t.free_vars().contains(v) {
        assert(t.subst(v, s).free_vars() =~= t.free_vars().remove(v).union(s.free_vars()));
    }
}

proof fn lemma_subst_free_vars_fuel(t: TermView, v: Seq<char>, s: TermView, fuel: nat)
    requires
        fuel >= t.size(),
        !t.renames_onto_target_fuel(v, s, fuel),
    ensures
        t.subst_fuel(v, s, fuel).free_vars() == expected_free_vars(t, v, s),
    decreases fuel,
{
    let f = (fuel - 1) as nat;
    let r = t.subst_fuel(v, s, fuel);
    match t {
        TermView::Var(x) => {
            assert(r.free_vars() =~= expected_free_vars(t, v, s));
        },
        TermView::Apply(a, b) => {
            lemma_subst_free_vars_fuel(*a, v, s, f);
            lemma_subst_free_vars_fuel(*b, v, s, f);
            assert(r.free_vars() =~= expected_free_vars(t, v, s));
        },
        TermView::Lambda(x, b) => {
            if x == v {
                assert(r.free_vars() =~= expected_free_vars(t, v, s));
            } else if s.free_vars().contains(x) {
                let avoid = s.free_vars().union(b.free_vars());
                let y = fresh_binder(avoid);
                s.lemma_free_vars_finite();
                b.lemma_free_vars_finite();
                lemma_fresh_binder(avoid);
                let renamed = b.subst_fuel(x, TermView::Var(y), f);
                lemma_subst_free_vars_fuel(*b, x, TermView::Var(y), f);
                b.lemma_subst_var_size(x, TermView::Var(y), f);
                lemma_subst_free_vars_fuel(renamed, v, s, f);
                assert(r.free_vars() =~= expected_free_vars(t, v, s));
            } else {
                lemma_subst_free_vars_fuel(*b, v, s, f);
                assert(r.free_vars() =~= expected_free_vars(t, v, s));
            }
        },
    }
}

/// Substitution is capture-avoiding: the free variables of `t[v := s]` are
/// those of `t` when `v` is not free in `t`, and otherwise those of `t`
/// without `v` together with those of `s`. The first case needs that the
/// search for a fresh binder does not pick `v` itself for a binder its body
/// uses: renaming avoids only the free variables of `s` and of the body, so
/// it can (as in `(λx. x)[y := x]`, which gives `λy. x`).
pub proof fn lemma_subst_free_vars(t: TermView, v: Seq<char>, s: TermView)
    requires
        t.free_vars().contains(v) || !t.renames_onto_target(v, s),
    ensures
        t.subst(v, s).free_vars() == expected_free_vars(t, v, s),
{
    if t.free_vars().contains(v) {
        lemma_subst_free_vars_bounds(t, v, s);
    } else {
        lemma_subst_free_vars_fuel(t, v, s, t.size());
    }
}

/// Whether `w` has the shape of `u` under `depth` binders, with the same
/// index at every bound variable, and at every free variable `Var(i)` the
/// index whose free slot holds, in `names`, the name generated for `i`.
pub open spec fn same_binding(
    u: unnamed::Term,
    w: unnamed::Term,
    depth: nat,
    names: Seq<Seq<char>>,
) -> bool
    decreases u,
{
    match u {
        unnamed::Term::Var(i) => match w {
            unnamed::Term::Var(j) => if i < depth {
                j == i
            } else {
                &&& depth <= j
                &&& j - depth < names.len()
                &&& names[j - depth] == name_of(free_letters(), (i - depth + 1) as nat)
            },
            _ => false,
        },
        unnamed::Term::Apply(a1, b1) => match w {
            unnamed::Term::Apply(a2, b2) => same_binding(*a1, *a2, depth, names) && same_binding(
                *b1,
                *b2,
                depth,
                names,
            ),
            _ => false,
        },
        unnamed::Term::Lambda(b1) => match w {
            unnamed::Term::Lambda(b2) => same_binding(*b1, *b2, depth + 1, names),
            _ => false,
        },
    }
}

/// The names of `depth` nested binders, the outermost first.
pub open spec fn binder_names(depth: nat) -> Seq<Seq<char>> {
    Seq::new(depth, |k: int| name_of(bound_letters(), (k + 1) as nat))
}

proof fn lemma_letters_disjoint()
    ensures
        forall|a: int, b: int|
            0 <= a < bound_letters().len() && 0 <= b < free_letters().len() ==> bound_letters()[a]
                != free_letters()[b],
{
    let x = bound_letters();
    let f = free_letters();
    assert(x[0] == 'x' && x[1] == 'y' && x[2] == 'z' && x[3] == 'w' && x[4] == 'u');
    assert(x[5] == 'v' && x[6] == 'r' && x[7] == 's' && x[8] == 't');
    assert(f[0] == 'a' && f[1] == 'b' && f[2] == 'c' && f[3] == 'd' && f[4] == 'e' && f[5] == 'f');
    assert(f[6] == 'g' && f[7] == 'h' && f[8] == 'i' && f[9] == 'j' && f[10] == 'k' && f[11]
        == 'l');
    assert(f[12] == 'm' && f[13] == 'n' && f[14] == 'o' && f[15] == 'p' && f[16] == 'q');
    assert forall|a: int| 0 <= a < x.len() implies (x[a] as u32) >= ('r' as u32) by {
        assert(a == 0 || a == 1 || a == 2 || a == 3 || a == 4 || a == 5 || a == 6 || a == 7
            || a == 8);
    }
    assert forall|b: int| 0 <= b < f.len() implies (f[b] as u32) <= ('q' as u32) by {
        assert(b == 0 || b == 1 || b == 2 || b == 3 || b == 4 || b == 5 || b == 6 || b == 7
            || b == 8 || b == 9 || b == 10 || b == 11 || b == 12 || b == 13 || b == 14 || b == 15
            || b == 16);
    }
}

/// A generated binder name is never a generated free name.
proof fn lemma_binder_not_free_name(i: nat, j: nat)
    requires
        i >= 1,
        j >= 1,
    ensures
        name_of(bound_letters(), i) != name_of(free_letters(), j),
{
    lemma_letters_disjoint();
    lemma_name_of_last(bound_letters(), i);
    lemma_name_of_last(free_letters(), j);
}

proof fn lemma_first_index(names: Seq<Seq<char>>, x: Seq<char>)
    ensures
        match first_index(names, x) {
            Some(q) => q < names.len() && names[q as int] == x,
            None => !names.contains(x),
        },
    decreases names.len(),
{
    if names.len() > 0 {
        lemma_first_index(names.drop_first(), x);
        if names[0] != x && names.contains(x) {
            let k = choose|k: int| 0 <= k < names.len() && names[k] == x;
            assert(names.drop_first()[k - 1] == x);
        }
    }
}

proof fn lemma_same_binding_extend(
    u: unnamed::Term,
    w: unnamed::Term,
    depth: nat,
    names: Seq<Seq<char>>,
    more: Seq<Seq<char>>,
)
    requires
        same_binding(u, w, depth, names),
        names.len() <= more.len(),
        more.subrange(0, names.len() as int) == names,
    ensures
        same_binding(u, w, depth, more),
    decreases u,
{
    match u {
        unnamed::Term::Var(i) => {
            if i >= depth {
                let j = w->Var_0;
                assert(more.subrange(0, names.len() as int)[j - depth] == more[j - depth]);
            }
        },
        unnamed::Term::Apply(a1, b1) => {
            let (a2, b2) = (w->Apply_0, w->Apply_1);
            lemma_same_binding_extend(*a1, *a2, depth, names, more);
            lemma_same_binding_extend(*b1, *b2, depth, names, more);
        },
        unnamed::Term::Lambda(b1) => {
            lemma_same_binding_extend(*b1, *w->Lambda_0, depth + 1, names, more);
        },
    }
}

proof fn lemma_round_trip_at(u: unnamed::Term, depth: nat, names: Seq<Seq<char>>)
    requires
        names.no_duplicates(),
        depth + names.len() + u.size() <= usize::MAX + 1,
    ensures
        ({
            let (w, found) = lower(named_at(u, depth), binder_names(depth), names);
            &&& names.len() <= found.len() <= names.len() + u.size()
            &&& found.subrange(0, names.len() as int) == names
            &&& found.no_duplicates()
            &&& same_binding(u, w, depth, found)
            &&& u.closed_at(depth) ==> w == u && found == names
        }),
    decreases u,
{
    let c = binder_names(depth);
    lemma_bound_letters_distinct();
    match u {
        unnamed::Term::Var(i) => {
            let x = named_at(u, depth)->Var_0;
            lemma_innermost(c, x);
            if i < depth {
                assert(c[depth - 1 - i] == x);
                let p = innermost(c, x)->Some_0;
                lemma_name_of_injective(bound_letters(), (depth - p) as nat, (depth - i) as nat);
            } else {
                if innermost(c, x) is Some {
                    let p = innermost(c, x)->Some_0;
                    lemma_binder_not_free_name((depth - p) as nat, (i - depth + 1) as nat);
                }
                lemma_first_index(names, x);
                if first_index(names, x) is None {
                    let found = names.push(x);
                    assert(found.subrange(0, names.len() as int) =~= names);
                } else {
                    assert(names.subrange(0, names.len() as int) =~= names);
                }
            }
            let (w, found) = lower(named_at(u, depth), c, names);
            assert(found.subrange(0, names.len() as int) =~= names);
        },
        unnamed::Term::Apply(a, b) => {
            lemma_round_trip_at(*a, depth, names);
            let (wa, n1) = lower(named_at(*a, depth), c, names);
            lemma_round_trip_at(*b, depth, n1);
            let (wb, n2) = lower(named_at(*b, depth), c, n1);
            assert(n2.subrange(0, names.len() as int) =~= n1.subrange(0, names.len() as int)) by {
                assert forall|k: int| 0 <= k < names.len() implies n2[k] == n1[k] by {
                    assert(n2.subrange(0, n1.len() as int)[k] == n2[k]);
                }
            }
            lemma_same_binding_extend(*a, wa, depth, n1, n2);
        },
        unnamed::Term::Lambda(b) => {
            assert(c.push(name_of(bound_letters(), depth + 1)) =~= binder_names(depth + 1));
            lemma_round_trip_at(*b, depth + 1, names);
        },
    }
}

/// Converting a de Bruijn term to names and back keeps its binding
/// structure: the result has the same shape and the same index at every
/// bound variable, and each free variable comes back as the index of the
/// slot whose name, in the returned list, is the one generated for it. The
/// list has no repeats, so one free variable gets one index wherever it
/// occurs, and distinct ones get distinct indices. A closed term comes back
/// unchanged, with an empty list. The term's node count fits in a `usize`,
/// as for any term in memory.
pub proof fn lemma_round_trip(u: unnamed::Term)
    requires
        u.size() <= usize::MAX,
    ensures
        ({
            let (w, names) = lowered(named_of(u));
            &&& same_binding(u, w, 0, names)
            &&& names.no_duplicates()
            &&& u.closed_at(0) ==> w == u && names.len() == 0
        }),
{
    assert(binder_names(0) =~= Seq::empty());
    lemma_round_trip_at(u, 0, Seq::empty());
}

} // verus!
