//! Deterministic supply of variable names: the bijective base-`k` numerals
//! over a fixed alphabet of `k` letters.

use vstd::prelude::*;
use crate::text::string_of_reversed;
use vstd::arithmetic::div_mod::{lemma_fundamental_div_mod, lemma_fundamental_div_mod_converse};
use vstd::set_lib::lemma_len_subset;

verus! {

/// The name of `index` over the alphabet `base`: empty for zero, otherwise
/// the name of `(index - 1) / k` followed by the letter for the digit
/// `(index - 1) % k`, where `k` is the size of the alphabet.
pub open spec fn name_of(base: Seq<char>, index: nat) -> Seq<char>
    decreases index,
{
    if index == 0 || base.len() == 0 {
        Seq::empty()
    } else {
        let k = base.len() as int;
        let rest = index - 1;
        name_of(base, (rest / k) as nat).push(base[rest % k])
    }
}

/// A positive index has a name of at least one letter, ending in a letter of
/// the alphabet.
pub proof fn lemma_name_of_last(base: Seq<char>, index: nat)
    requires
        base.len() > 0,
        index > 0,
    ensures
        name_of(base, index).len() > 0,
        name_of(base, index).last() == base[(index - 1) % (base.len() as int)],
        name_of(base, index).drop_last() == name_of(base, ((index - 1) / (base.len() as int)) as nat),
{
    let k = base.len() as int;
    let prefix = name_of(base, ((index - 1) / k) as nat);
    assert(name_of(base, index) == prefix.push(base[(index - 1) % k]));
    assert(prefix.push(base[(index - 1) % k]).drop_last() =~= prefix);
}

/// Over an alphabet without repeated letters, distinct indices have
/// distinct names.
pub proof fn lemma_name_of_injective(base: Seq<char>, i: nat, j: nat)
    requires
        base.len() > 0,
        base.no_duplicates(),
        name_of(base, i) == name_of(base, j),
    ensures
        i == j,
    decreases i,
{
    let k = base.len() as int;
    if i == 0 {
        if j != 0 {
            lemma_name_of_last(base, j);
        }
    } else if j == 0 {
        lemma_name_of_last(base, i);
    } else {
        lemma_name_of_last(base, i);
        lemma_name_of_last(base, j);
        let qi = (i - 1) / k;
        let qj = (j - 1) / k;
        assert((i - 1) % k == (j - 1) % k);
        assert(0 <= qi < i) by (nonlinear_arith)
            requires qi == (i - 1) / k, k > 0, i > 0;
        lemma_name_of_injective(base, qi as nat, qj as nat);
        lemma_fundamental_div_mod(i - 1, k);
        lemma_fundamental_div_mod(j - 1, k);
    }
}

/// Every string over the alphabet is the name of some index; with
/// [`lemma_name_of_injective`], the names are a bijection between the
/// indices and the strings over the alphabet.
pub proof fn lemma_name_of_onto(base: Seq<char>, w: Seq<char>)
    requires
        base.len() > 0,
        forall|i: int| 0 <= i < w.len() ==> base.contains(#[trigger] w[i]),
    ensures
        exists|n: nat| name_of(base, n) == w,
    decreases w.len(),
{
    if w.len() == 0 {
        assert(name_of(base, 0) == w);
    } else {
        let k = base.len() as int;
        let prefix = w.drop_last();
        assert forall|i: int| 0 <= i < prefix.len() implies base.contains(#[trigger] prefix[i]) by {
            assert(prefix[i] == w[i]);
        }
        lemma_name_of_onto(base, prefix);
        let q = choose|n: nat| name_of(base, n) == prefix;
        assert(base.contains(w[w.len() - 1]));
        let r = choose|r: int| 0 <= r < k && base[r] == w.last();
        assert(q * k >= 0) by (nonlinear_arith)
            requires k > 0;
        let n = (q * k + r + 1) as nat;
        lemma_fundamental_div_mod_converse(n - 1, k, q as int, r);
        assert(name_of(base, n) == prefix.push(base[r]));
        assert(prefix.push(w.last()) =~= w);
    }
}

/// Whether `a` comes before `b` at the first place where they differ, the
/// letters ranked by their place in `base`.
pub open spec fn letters_before(base: Seq<char>, a: Seq<char>, b: Seq<char>) -> bool {
    exists|p: int, ra: int, rb: int|
        0 <= p < a.len() && p < b.len() && a.subrange(0, p) == b.subrange(0, p) && 0 <= ra < rb
            < base.len() && a[p] == base[ra] && b[p] == base[rb]
}

/// Whether `a` comes before `b` when names are ordered by length first and
/// then letter by letter.
pub open spec fn shortlex_before(base: Seq<char>, a: Seq<char>, b: Seq<char>) -> bool {
    a.len() < b.len() || (a.len() == b.len() && letters_before(base, a, b))
}

proof fn lemma_before_push(base: Seq<char>, a: Seq<char>, b: Seq<char>, ca: char, cb: char)
    requires
        shortlex_before(base, a, b),
    ensures
        shortlex_before(base, a.push(ca), b.push(cb)),
{
    if a.len() == b.len() {
        let (p, ra, rb) = choose|p: int, ra: int, rb: int|
            0 <= p < a.len() && p < b.len() && a.subrange(0, p) == b.subrange(0, p) && 0 <= ra
                < rb < base.len() && a[p] == base[ra] && b[p] == base[rb];
        assert(a.push(ca).subrange(0, p) =~= a.subrange(0, p));
        assert(b.push(cb).subrange(0, p) =~= b.subrange(0, p));
        assert(a.push(ca)[p] == a[p] && b.push(cb)[p] == b[p]);
    }
}

proof fn lemma_before_transitive(base: Seq<char>, a: Seq<char>, b: Seq<char>, c: Seq<char>)
    requires
        base.no_duplicates(),
        shortlex_before(base, a, b),
        shortlex_before(base, b, c),
    ensures
        shortlex_before(base, a, c),
{
    if a.len() == b.len() && b.len() == c.len() {
        let (p1, ra, rb) = choose|p: int, ra: int, rb: int|
            0 <= p < a.len() && p < b.len() && a.subrange(0, p) == b.subrange(0, p) && 0 <= ra
                < rb < base.len() && a[p] == base[ra] && b[p] == base[rb];
        let (p2, sb, sc) = choose|p: int, rb: int, rc: int|
            0 <= p < b.len() && p < c.len() && b.subrange(0, p) == c.subrange(0, p) && 0 <= rb
                < rc < base.len() && b[p] == base[rb] && c[p] == base[rc];
        if p1 < p2 {
            assert(b.subrange(0, p2)[p1] == c.subrange(0, p2)[p1]);
            assert(a.subrange(0, p1) =~= c.subrange(0, p1)) by {
                assert forall|k: int| 0 <= k < p1 implies a[k] == c[k] by {
                    assert(a.subrange(0, p1)[k] == b.subrange(0, p1)[k]);
                    assert(b.subrange(0, p2)[k] == c.subrange(0, p2)[k]);
                }
            }
        } else if p2 < p1 {
            assert(a.subrange(0, p1)[p2] == b.subrange(0, p1)[p2]);
            assert(a.subrange(0, p2) =~= c.subrange(0, p2)) by {
                assert forall|k: int| 0 <= k < p2 implies a[k] == c[k] by {
                    assert(a.subrange(0, p1)[k] == b.subrange(0, p1)[k]);
                    assert(b.subrange(0, p2)[k] == c.subrange(0, p2)[k]);
                }
            }
        } else {
            assert(rb == sb);
            assert(a.subrange(0, p1) =~= c.subrange(0, p1));
        }
    }
}

/// Each name comes just before the name of the next index.
proof fn lemma_name_of_next(base: Seq<char>, i: nat)
    requires
        base.len() > 0,
    ensures
        shortlex_before(base, name_of(base, i), name_of(base, i + 1)),
    decreases i,
{
    let k = base.len() as int;
    lemma_name_of_last(base, i + 1);
    if i > 0 {
        lemma_name_of_last(base, i);
        let q = (i - 1) / k;
        let r = (i - 1) % k;
        lemma_fundamental_div_mod(i - 1, k);
        assert(name_of(base, i) == name_of(base, q as nat).push(base[r]));
        if r < k - 1 {
            lemma_fundamental_div_mod_converse(i as int, k, q, r + 1);
            let prefix = name_of(base, q as nat);
            let a = prefix.push(base[r]);
            let b = prefix.push(base[r + 1]);
            assert(name_of(base, i + 1) == b);
            assert(a.subrange(0, prefix.len() as int) =~= b.subrange(0, prefix.len() as int));
            assert(letters_before(base, a, b)) by {
                let p = prefix.len() as int;
                assert(a[p] == base[r] && b[p] == base[r + 1]);
            }
        } else {
            assert(i == (q + 1) * k) by (nonlinear_arith)
                requires i - 1 == k * q + r, r == k - 1;
            lemma_fundamental_div_mod_converse(i as int, k, q + 1, 0);
            assert(0 <= q < i) by (nonlinear_arith)
                requires q == (i - 1) / k, k > 0, i > 0;
            lemma_name_of_next(base, q as nat);
            lemma_before_push(
                base,
                name_of(base, q as nat),
                name_of(base, (q + 1) as nat),
                base[r],
                base[0],
            );
        }
    }
}

/// The names come in order: a smaller index has a shorter name, or one of
/// the same length that comes first letter by letter.
pub proof fn lemma_name_of_ordered(base: Seq<char>, i: nat, j: nat)
    requires
        base.len() > 0,
        base.no_duplicates(),
        i < j,
    ensures
        shortlex_before(base, name_of(base, i), name_of(base, j)),
    decreases j,
{
    lemma_name_of_next(base, (j - 1) as nat);
    if i < j - 1 {
        lemma_name_of_ordered(base, i, (j - 1) as nat);
        lemma_before_transitive(
            base,
            name_of(base, i),
            name_of(base, (j - 1) as nat),
            name_of(base, j),
        );
    }
}

/// The names of the indices `1..=m`.
pub open spec fn names_upto(base: Seq<char>, m: nat) -> Set<Seq<char>>
    decreases m,
{
    if m == 0 {
        Set::empty()
    } else {
        names_upto(base, (m - 1) as nat).insert(name_of(base, m))
    }
}

pub proof fn lemma_names_upto(base: Seq<char>, m: nat)
    requires
        base.len() > 0,
        base.no_duplicates(),
    ensures
        names_upto(base, m).finite(),
        names_upto(base, m).len() == m,
        forall|n: Seq<char>|
            #[trigger] names_upto(base, m).contains(n) <==> exists|j: nat|
                1 <= j <= m && name_of(base, j) == n,
    decreases m,
{
    if m > 0 {
        let prev = names_upto(base, (m - 1) as nat);
        lemma_names_upto(base, (m - 1) as nat);
        if prev.contains(name_of(base, m)) {
            let j = choose|j: nat| 1 <= j <= m - 1 && name_of(base, j) == name_of(base, m);
            lemma_name_of_injective(base, j, m);
        }
        assert forall|n: Seq<char>| #[trigger] names_upto(base, m).contains(n) implies exists|j: nat|
            1 <= j <= m && name_of(base, j) == n by {
            if n != name_of(base, m) {
                let j = choose|j: nat| 1 <= j <= m - 1 && name_of(base, j) == n;
                assert(1 <= j <= m && name_of(base, j) == n);
            }
        }
        assert forall|n: Seq<char>| (exists|j: nat| 1 <= j <= m && name_of(base, j) == n) implies
            #[trigger] names_upto(base, m).contains(n) by {
            let j = choose|j: nat| 1 <= j <= m && name_of(base, j) == n;
            if j < m {
                assert(prev.contains(n));
            }
        }
    }
}

/// If the names of `1..=m` all lie in a finite set, the set has at least
/// `m` elements.
pub proof fn lemma_names_fill(base: Seq<char>, avoid: Set<Seq<char>>, m: nat)
    requires
        base.len() > 0,
        base.no_duplicates(),
        avoid.finite(),
        forall|j: nat| 1 <= j <= m ==> avoid.contains(#[trigger] name_of(base, j)),
    ensures
        m <= avoid.len(),
{
    lemma_names_upto(base, m);
    assert(names_upto(base, m).subset_of(avoid));
    lemma_len_subset(names_upto(base, m), avoid);
}

/// Whether `i` is the first positive index whose name is not in `avoid`.
pub open spec fn is_first_unused(base: Seq<char>, avoid: Set<Seq<char>>, i: nat) -> bool {
    &&& i >= 1
    &&& !avoid.contains(name_of(base, i))
    &&& forall|j: nat| 1 <= j < i ==> avoid.contains(#[trigger] name_of(base, j))
}

/// The first positive index whose name is not in `avoid`.
pub open spec fn first_unused(base: Seq<char>, avoid: Set<Seq<char>>) -> nat {
    choose|i: nat| is_first_unused(base, avoid, i)
}

/// Every finite set of names misses some name of the supply, and the first
/// one it misses has an index at most one past its size.
pub proof fn lemma_first_unused(base: Seq<char>, avoid: Set<Seq<char>>)
    requires
        base.len() > 0,
        base.no_duplicates(),
        avoid.finite(),
    ensures
        is_first_unused(base, avoid, first_unused(base, avoid)),
        first_unused(base, avoid) <= avoid.len() + 1,
        forall|i: nat| is_first_unused(base, avoid, i) ==> i == first_unused(base, avoid),
{
    lemma_first_unused_from(base, avoid, 1);
    let f = first_unused(base, avoid);
    lemma_names_fill(base, avoid, (f - 1) as nat);
    assert forall|i: nat| is_first_unused(base, avoid, i) implies i == f by {
        if i < f {
            assert(avoid.contains(name_of(base, i)));
        } else if f < i {
            assert(avoid.contains(name_of(base, f)));
        }
    }
}

proof fn lemma_first_unused_from(base: Seq<char>, avoid: Set<Seq<char>>, i: nat)
    requires
        base.len() > 0,
        base.no_duplicates(),
        avoid.finite(),
        i >= 1,
        forall|j: nat| 1 <= j < i ==> avoid.contains(#[trigger] name_of(base, j)),
    ensures
        exists|f: nat| is_first_unused(base, avoid, f),
    decreases avoid.len() + 1 - i,
{
    lemma_names_fill(base, avoid, (i - 1) as nat);
    if !avoid.contains(name_of(base, i)) {
        assert(is_first_unused(base, avoid, i));
    } else {
        lemma_names_fill(base, avoid, i);
        lemma_first_unused_from(base, avoid, i + 1);
    }
}

/// Generator of the names `name_of(base, 0)`, `name_of(base, 1)`, ...
pub struct LexicographicalNames<'a> {
    base: &'a [char],
}

impl<'a> LexicographicalNames<'a> {
    /// The alphabet the names are drawn from.
    pub closed spec fn alphabet(&self) -> Seq<char> {
        self.base@
    }

    pub fn new(base: &'a [char]) -> (r: Self)
        ensures
            r.alphabet() == base@,
    {
        LexicographicalNames { base }
    }

    /// The name with the given index.
    pub fn get(&self, index: usize) -> (r: String)
        requires
            index > 0 ==> self.alphabet().len() > 0,
        ensures
            r@ == name_of(self.alphabet(), index as nat),
    {
        if index == 0 {
            String::new()
        } else {
            self.get_after(index - 1)
        }
    }

    /// The name with index `j + 1`; defined for every `j`, the largest too.
    pub(crate) fn get_after(&self, j: usize) -> (r: String)
        requires
            self.alphabet().len() > 0,
        ensures
            r@ == name_of(self.alphabet(), j as nat + 1),
    {
        let ghost base = self.base@;
        let k = self.base.len();
        let mut rest: usize = j;
        let mut digits: Vec<char> = Vec::new();
        loop
            invariant_except_break
                k == base.len(),
                k > 0,
                base == self.base@,
                name_of(base, j as nat + 1) == name_of(base, rest as nat + 1) + digits@.reverse(),
            ensures
                name_of(base, j as nat + 1) == digits@.reverse(),
            decreases rest,
        {
            let c = self.base[rest % k];
            let ghost old_digits = digits@;
            digits.push(c);
            let q = rest / k;
            assert(digits@.reverse() =~= seq![c] + old_digits.reverse());
            assert(name_of(base, rest as nat + 1) == name_of(base, q as nat).push(c));
            if q == 0 {
                assert(name_of(base, rest as nat + 1) =~= seq![c]);
                break;
            }
            assert(q <= rest) by (nonlinear_arith)
                requires q == rest / k, k > 0;
            rest = q - 1;
            assert(name_of(base, j as nat + 1) =~= name_of(base, rest as nat + 1) + digits@.reverse());
        }
        string_of_reversed(&digits)
    }
}

} // verus!
