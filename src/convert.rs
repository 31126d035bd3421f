//! Conversion between named and de Bruijn indexed terms.

use vstd::prelude::*;
use crate::named::{
    self, bound_letter_vec, bound_letters, free_letter_vec, free_letters, strs, TermView,
};
use crate::names::{name_of, LexicographicalNames};
use crate::unnamed;

verus! {

/// Position, counted from the end, of the last occurrence of `x` in `c`.
pub open spec fn innermost(c: Seq<Seq<char>>, x: Seq<char>) -> Option<nat>
    decreases c.len(),
{
    if c.len() == 0 {
        None
    } else if c.last() == x {
        Some(0)
    } else {
        match innermost(c.drop_last(), x) {
            Some(p) => Some(p + 1),
            None => None,
        }
    }
}

/// Position of the first occurrence of `x` in `names`.
pub open spec fn first_index(names: Seq<Seq<char>>, x: Seq<char>) -> Option<nat>
    decreases names.len(),
{
    if names.len() == 0 {
        None
    } else if names[0] == x {
        Some(0)
    } else {
        match first_index(names.drop_first(), x) {
            Some(q) => Some(q + 1),
            None => None,
        }
    }
}

/// The de Bruijn form of `t` under the binders `args` (innermost last),
/// with `names` the free variables met so far; also returns the free
/// variables met once `t` is done. A variable bound in `args` gets its
/// distance to the innermost binder of its name; a free one gets the number
/// of binders plus its position in the free list, where it is appended the
/// first time it is met.
pub open spec fn lower(t: TermView, args: Seq<Seq<char>>, names: Seq<Seq<char>>) -> (
    unnamed::Term,
    Seq<Seq<char>>,
)
    decreases t,
{
    match t {
        TermView::Var(x) => match innermost(args, x) {
            Some(p) => (unnamed::Term::Var(p as usize), names),
            None => match first_index(names, x) {
                Some(q) => (unnamed::Term::Var((args.len() + q) as usize), names),
                None => (unnamed::Term::Var((args.len() + names.len()) as usize), names.push(x)),
            },
        },
        TermView::Apply(a, b) => {
            let (ua, n1) = lower(*a, args, names);
            let (ub, n2) = lower(*b, args, n1);
            (unnamed::Term::Apply(Box::new(ua), Box::new(ub)), n2)
        },
        TermView::Lambda(x, b) => {
            let (ub, n1) = lower(*b, args.push(x), names);
            (unnamed::Term::Lambda(Box::new(ub)), n1)
        },
    }
}

/// The de Bruijn form of a named term under no binders, with the list of
/// its free variables: a free index `i` at the top level stands for the
/// `i`-th name of the list.
pub open spec fn lowered(t: TermView) -> (unnamed::Term, Seq<Seq<char>>) {
    lower(t, Seq::empty(), Seq::empty())
}

/// The named form of `u` under `depth` binders. The binder at depth `k`
/// (the outermost is 1) is named `name_of(bound_letters(), k)`. A bound
/// `Var(i)` at depth `d` takes the name of its binder, at depth `d - i`; a
/// free one is named `name_of(free_letters(), i - d + 1)`.
pub open spec fn named_at(u: unnamed::Term, depth: nat) -> TermView
    decreases u,
{
    match u {
        unnamed::Term::Var(i) => if i < depth {
            TermView::Var(name_of(bound_letters(), (depth - i) as nat))
        } else {
            TermView::Var(name_of(free_letters(), (i - depth + 1) as nat))
        },
        unnamed::Term::Apply(a, b) => TermView::Apply(
            Box::new(named_at(*a, depth)),
            Box::new(named_at(*b, depth)),
        ),
        unnamed::Term::Lambda(b) => TermView::Lambda(
            name_of(bound_letters(), depth + 1),
            Box::new(named_at(*b, depth + 1)),
        ),
    }
}

/// The named form of a de Bruijn term, with generated names.
pub open spec fn named_of(u: unnamed::Term) -> TermView {
    named_at(u, 0)
}

pub proof fn lemma_innermost(c: Seq<Seq<char>>, x: Seq<char>)
    ensures
        match innermost(c, x) {
            Some(p) => p < c.len() && c[c.len() - 1 - p] == x && forall|j: int|
                c.len() - 1 - p < j < c.len() ==> c[j] != x,
            None => forall|j: int| 0 <= j < c.len() ==> c[j] != x,
        },
    decreases c.len(),
{
    if c.len() > 0 {
        let d = c.drop_last();
        lemma_innermost(d, x);
        assert forall|j: int| 0 <= j < d.len() implies d[j] == c[j] by {}
    }
}

proof fn lemma_innermost_reversed(names: Seq<Seq<char>>, x: Seq<char>)
    ensures
        innermost(names.reverse(), x) == first_index(names, x),
    decreases names.len(),
{
    if names.len() > 0 {
        let r = names.reverse();
        assert(r.last() == names[0]);
        assert(r.drop_last() =~= names.drop_first().reverse());
        lemma_innermost_reversed(names.drop_first(), x);
    }
}

/// Looking a name up from the top of one stack that holds the free names
/// (first one on top) under the binders finds the binder first, else the
/// free name, at the binders' count plus its position.
proof fn lemma_innermost_split(names: Seq<Seq<char>>, args: Seq<Seq<char>>, x: Seq<char>)
    ensures
        innermost(names.reverse() + args, x) == match innermost(args, x) {
            Some(p) => Some(p),
            None => match first_index(names, x) {
                Some(q) => Some(args.len() + q),
                None => None::<nat>,
            },
        },
    decreases args.len(),
{
    let c = names.reverse() + args;
    if args.len() == 0 {
        assert(c =~= names.reverse());
        lemma_innermost_reversed(names, x);
    } else {
        assert(c.last() == args.last());
        assert(c.drop_last() =~= names.reverse() + args.drop_last());
        lemma_innermost_split(names, args.drop_last(), x);
    }
}

impl named::Term {
    /// The named form of a de Bruijn term: binders are named after their
    /// depth, free variables after their global index.
    pub fn from_unnamed(unnamed: &unnamed::Term) -> (r: named::Term)
        ensures
            r@ == named_of(*unnamed),
    {
        let free_alphabet = free_letter_vec();
        let bound_alphabet = bound_letter_vec();
        let free_vars = LexicographicalNames::new(free_alphabet.as_slice());
        let bound_vars = LexicographicalNames::new(bound_alphabet.as_slice());
        let mut binders: Vec<String> = Vec::new();
        Self::from_unnamed_inner(unnamed, &mut binders, &free_vars, &bound_vars)
    }

    /// `binders` holds the names of the binders around `unnamed`, the
    /// outermost first; its length is the depth.
    fn from_unnamed_inner(
        unnamed: &unnamed::Term,
        binders: &mut Vec<String>,
        free_vars: &LexicographicalNames,
        bound_vars: &LexicographicalNames,
    ) -> (r: named::Term)
        requires
            free_vars.alphabet() == free_letters(),
            bound_vars.alphabet() == bound_letters(),
            forall|k: int|
                0 <= k < old(binders)@.len() ==> #[trigger] old(binders)@[k]@ == name_of(
                    bound_letters(),
                    (k + 1) as nat,
                ),
        ensures
            r@ == named_at(*unnamed, old(binders)@.len()),
            final(binders)@ == old(binders)@,
        decreases unnamed,
    {
        let depth = binders.len();
        match unnamed {
            unnamed::Term::Var(i) => {
                if *i < depth {
                    named::Term::Var(binders[depth - 1 - *i].clone())
                } else {
                    named::Term::Var(free_vars.get_after(*i - depth))
                }
            },
            unnamed::Term::Apply(t1, t2) => {
                let a = Self::from_unnamed_inner(t1, binders, free_vars, bound_vars);
                let b = Self::from_unnamed_inner(t2, binders, free_vars, bound_vars);
                named::Term::Apply(Box::new(a), Box::new(b))
            },
            unnamed::Term::Lambda(t) => {
                let name = bound_vars.get_after(depth);
                binders.push(name.clone());
                let body = Self::from_unnamed_inner(t, binders, free_vars, bound_vars);
                binders.pop();
                assert(binders@ =~= old(binders)@);
                named::Term::Lambda(name, Box::new(body))
            },
        }
    }
}

impl unnamed::Term {
    /// The de Bruijn form of `named` and the list of its free variables in
    /// the order they are first met: a free index `i` at the top level of
    /// the result stands for `names[i]`.
    pub fn from_named(named: &named::Term) -> (r: (unnamed::Term, Vec<String>))
        ensures
            r.0 == lowered(named@).0,
            strs(r.1@) == lowered(named@).1,
    {
        let mut ctx: Vec<String> = Vec::new();
        assert(strs(ctx@) =~= Seq::<Seq<char>>::empty().reverse() + Seq::<Seq<char>>::empty());
        let term = Self::from_named_inner(named, &mut ctx, Ghost(Seq::empty()), Ghost(Seq::empty()));
        let ghost found = lowered(named@).1;
        assert(strs(ctx@) =~= found.reverse());
        let len = ctx.len();
        let mut names: Vec<String> = Vec::new();
        let mut i: usize = len;
        while i > 0
            invariant
                i <= len,
                len == ctx@.len(),
                strs(ctx@) == found.reverse(),
                found.len() == len,
                names@.len() == len - i,
                forall|k: int| 0 <= k < names@.len() ==> #[trigger] names@[k]@ == found[k],
            decreases i,
        {
            i = i - 1;
            names.push(ctx[i].clone());
            assert(strs(ctx@)[i as int] == ctx@[i as int]@);
            assert(found.reverse()[i as int] == found[len - 1 - i]);
        }
        assert(strs(names@) =~= found);
        (term, names)
    }

    #[verifier::loop_isolation(false)]
    fn from_named_inner(
        named: &named::Term,
        ctx: &mut Vec<String>,
        Ghost(args): Ghost<Seq<Seq<char>>>,
        Ghost(names): Ghost<Seq<Seq<char>>>,
    ) -> (r: unnamed::Term)
        requires
            strs(old(ctx)@) == names.reverse() + args,
        ensures
            r == lower(named@, args, names).0,
            strs(final(ctx)@) == lower(named@, args, names).1.reverse() + args,
        decreases named,
    {
        match named {
            named::Term::Var(x) => {
                let ghost c = strs(ctx@);
                proof {
                    lemma_innermost(c, x@);
                    lemma_innermost_split(names, args, x@);
                }
                let len = ctx.len();
                let mut i: usize = len;
                while i > 0
                    invariant
                        i <= len,
                        len == ctx@.len(),
                        c == strs(ctx@),
                        forall|j: int| i <= j < len ==> c[j] != x@,
                        c == names.reverse() + args,
                        c.len() == len,
                    decreases i,
                {
                    if ctx[i - 1] == *x {
                        proof {
                            assert(c[i - 1] == x@);
                            lemma_innermost(c, x@);
                            lemma_innermost_split(names, args, x@);
                            let p = innermost(c, x@)->Some_0;
                            assert(len - 1 - p == i - 1);
                        }
                        return unnamed::Term::Var(len - i);
                    }
                    i = i - 1;
                }
                let ghost before = ctx@;
                ctx.insert(0, x.clone());
                assert(ctx@ =~= seq![*x] + before);
                assert(strs(ctx@) =~= seq![x@] + c);
                assert(names.push(x@).reverse() =~= seq![x@] + names.reverse());
                assert(strs(ctx@) =~= names.push(x@).reverse() + args);
                unnamed::Term::Var(len)
            },
            named::Term::Apply(t1, t2) => {
                let u1 = Self::from_named_inner(t1, ctx, Ghost(args), Ghost(names));
                let ghost n1 = lower(t1@, args, names).1;
                let u2 = Self::from_named_inner(t2, ctx, Ghost(args), Ghost(n1));
                unnamed::Term::apply(u1, u2)
            },
            named::Term::Lambda(x, t) => {
                let ghost before = strs(ctx@);
                ctx.push(x.clone());
                assert(strs(ctx@) =~= before.push(x@));
                assert(strs(ctx@) =~= names.reverse() + args.push(x@));
                let u = Self::from_named_inner(t, ctx, Ghost(args.push(x@)), Ghost(names));
                let ghost n1 = lower(t@, args.push(x@), names).1;
                let ghost inside = strs(ctx@);
                ctx.pop();
                assert(strs(ctx@) =~= inside.drop_last());
                assert(strs(ctx@) =~= n1.reverse() + args);
                unnamed::Term::lambda(u)
            },
        }
    }
}

} // verus!
