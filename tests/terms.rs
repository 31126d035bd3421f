use lambda_terms::named::Term;
use lambda_terms::names::LexicographicalNames;
use lambda_terms::unnamed;
use lambda_terms::unnamed::substitute;
use lambda_terms::unnamed::Term as UTerm;

/// Splits lambda notation into tokens: `λ`, `.`, `(`, `)` and words.
fn tokens(src: &str) -> Vec<String> {
    let mut out = Vec::new();
    let mut word = String::new();
    for c in src.chars() {
        if c.is_alphanumeric() && c != 'λ' || c == '_' {
            word.push(c);
            continue;
        }
        if !word.is_empty() {
            out.push(word.clone());
            word.clear();
        }
        if !c.is_whitespace() {
            out.push(c.to_string());
        }
    }
    if !word.is_empty() {
        out.push(word);
    }
    out
}

struct Reader {
    toks: Vec<String>,
    pos: usize,
}

impl Reader {
    fn new(src: &str) -> Reader {
        Reader { toks: tokens(src), pos: 0 }
    }

    fn peek(&self) -> Option<&str> {
        self.toks.get(self.pos).map(|s| s.as_str())
    }

    fn next(&mut self) -> String {
        let t = self.toks[self.pos].clone();
        self.pos += 1;
        t
    }

    fn at_end_of_group(&self) -> bool {
        matches!(self.peek(), None | Some(")"))
    }
}

/// Named terms: `x`, `M N` (to the left), `λ x. M` or `λ x M` (as far right
/// as it goes), `(M)`.
fn named_term(r: &mut Reader) -> Term {
    if r.peek() == Some("λ") {
        r.next();
        let name = r.next();
        if r.peek() == Some(".") {
            r.next();
        }
        return Term::lambda(&name, named_term(r));
    }
    let mut t = named_atom(r);
    while !r.at_end_of_group() {
        assert_ne!(r.peek(), Some("λ"), "a λ inside an application needs parentheses");
        t = Term::apply(t, named_atom(r));
    }
    t
}

fn named_atom(r: &mut Reader) -> Term {
    if r.peek() == Some("(") {
        r.next();
        let t = named_term(r);
        assert_eq!(r.next(), ")");
        t
    } else {
        Term::var(&r.next())
    }
}

fn n(src: &str) -> Term {
    let mut r = Reader::new(src);
    let t = named_term(&mut r);
    assert!(r.peek().is_none());
    t
}

/// De Bruijn terms: `i`, `M N`, `λ M`, `(M)`; the word `max` is the
/// largest index.
fn unnamed_term(r: &mut Reader) -> unnamed::Term {
    if r.peek() == Some("λ") {
        r.next();
        return unnamed::Term::lambda(unnamed_term(r));
    }
    let mut t = unnamed_atom(r);
    while !r.at_end_of_group() {
        assert_ne!(r.peek(), Some("λ"), "a λ inside an application needs parentheses");
        t = unnamed::Term::apply(t, unnamed_atom(r));
    }
    t
}

fn unnamed_atom(r: &mut Reader) -> unnamed::Term {
    if r.peek() == Some("(") {
        r.next();
        let t = unnamed_term(r);
        assert_eq!(r.next(), ")");
        t
    } else {
        let w = r.next();
        if w == "max" {
            unnamed::Term::var(usize::MAX)
        } else {
            unnamed::Term::var(w.parse().unwrap())
        }
    }
}

fn u(src: &str) -> unnamed::Term {
    let mut r = Reader::new(src);
    let t = unnamed_term(&mut r);
    assert!(r.peek().is_none());
    t
}

fn names(v: &[&str]) -> Vec<String> {
    v.iter().map(|s| s.to_string()).collect()
}

// Named literals.

#[test]
fn macro_var() {
    assert_eq!(n("x"), Term::var("x"));
    assert_eq!(n("(y)"), Term::var("y"));
    assert_eq!(n("(z)"), Term::var("z"));
    assert_eq!(n("VAR_1"), Term::var("VAR_1"));
}

#[test]
fn macro_apply() {
    assert_eq!(n("a b"), Term::apply(Term::var("a"), Term::var("b")));
    assert_eq!(n("(a b)"), Term::apply(Term::var("a"), Term::var("b")));

    assert_eq!(
        n("a b c"),
        Term::apply(Term::apply(Term::var("a"), Term::var("b")), Term::var("c"))
    );

    assert_eq!(
        n("a b c d"),
        Term::apply(
            Term::apply(Term::apply(Term::var("a"), Term::var("b")), Term::var("c")),
            Term::var("d")
        )
    );

    assert_eq!(
        n("(a b) c"),
        Term::apply(Term::apply(Term::var("a"), Term::var("b")), Term::var("c"))
    );

    assert_eq!(
        n("a (b c)"),
        Term::apply(Term::var("a"), Term::apply(Term::var("b"), Term::var("c")))
    );
}

#[test]
fn macro_lambda() {
    assert_eq!(n("λ y. y"), Term::lambda("y", Term::var("y")));
    assert_eq!(n("(λ y. y)"), Term::lambda("y", Term::var("y")));
    assert_eq!(n("λ VAR_1. x"), Term::lambda("VAR_1", Term::var("x")));

    assert_eq!(
        n("λ a. λ b. a"),
        Term::lambda("a", Term::lambda("b", Term::var("a")))
    );

    assert_eq!(
        n("λ a. (λ b. λ c. (c))"),
        Term::lambda("a", Term::lambda("b", Term::lambda("c", Term::var("c"))))
    );
}

#[test]
fn macro_apply_and_lambda() {
    assert_eq!(
        n("λ x. x b c"),
        Term::lambda(
            "x",
            Term::apply(Term::apply(Term::var("x"), Term::var("b")), Term::var("c"))
        )
    );

    assert_eq!(
        n("(λ x. x) b c"),
        Term::apply(
            Term::apply(Term::lambda("x", Term::var("x")), Term::var("b")),
            Term::var("c")
        )
    );

    assert_eq!(
        n("λ x. x (λ y. y)"),
        Term::lambda(
            "x",
            Term::apply(Term::var("x"), Term::lambda("y", Term::var("y")))
        )
    );

    assert_eq!(
        n("(λ x. x) (λ y. y)"),
        Term::apply(
            Term::lambda("x", Term::var("x")),
            Term::lambda("y", Term::var("y"))
        )
    );
}

// Named terms.

#[test]
fn lexicographical_names() {
    let gen = LexicographicalNames::new(&['a', 'b', 'c']);

    (0..15)
        .map(|i| gen.get(i))
        .zip(&[
            "", "a", "b", "c", "aa", "ab", "ac", "ba", "bb", "bc", "ca", "cb", "cc", "aaa", "aab",
        ])
        .for_each(|(gen, &expected)| assert_eq!(gen, expected));
}

#[test]
fn conversion() {
    assert_eq!(Term::from_unnamed(&u("0")), n("a"));
    assert_eq!(Term::from_unnamed(&u("0 1")), n("a b"));
    assert_eq!(Term::from_unnamed(&u("2")), n("c"));

    assert_eq!(Term::from_unnamed(&u("λ 0")), n("λ x x"));
    assert_eq!(Term::from_unnamed(&u("λ 1")), n("λ x a"));

    assert_eq!(Term::from_unnamed(&u("λ λ 0")), n("λ x λ y y"));
    assert_eq!(Term::from_unnamed(&u("λ λ 1")), n("λ x λ y x"));
    assert_eq!(Term::from_unnamed(&u("λ λ 2")), n("λ x λ y a"));

    assert_eq!(
        Term::from_unnamed(&u("(λ 0) (λ 0)")),
        n("(λ x x) (λ x x)")
    );
}

#[test]
fn substitute_with_var() {
    assert_eq!(n("x").substitute("x", &n("z")), n("z"));
    assert_eq!(n("x").substitute("y", &n("z")), n("x"));
    assert_eq!(n("x y z").substitute("y", &n("z")), n("x z z"));

    assert_eq!(n("λ x x").substitute("x", &n("y")), n("λ x x"));
    assert_eq!(n("λ x y").substitute("y", &n("z")), n("λ x z"));
    assert_eq!(n("λ x y").substitute("y", &n("x")), n("λ z x"));
    assert_eq!(
        n("λ x y (λ y x y)").substitute("y", &n("x")),
        n("λ z x (λ y z y)")
    );
}

#[test]
fn substitute_with_application() {
    assert_eq!(n("x").substitute("x", &n("y x")), n("y x"));
    assert_eq!(n("x y z").substitute("y", &n("x y z")), n("x (x y z) z"));

    assert_eq!(n("λ x y").substitute("y", &n("x y z")), n("λ w x y z"));

    assert_eq!(
        n("λ x x y z").substitute("y", &n("x y z")),
        n("λ w w (x y z) z")
    );

    assert_eq!(
        n("λ x y (λ y x y)").substitute("y", &n("x y")),
        n("λ z (x y) (λ y z y)")
    );

    assert_eq!(
        n("λ x y (λ y x y)").substitute("y", &n("x y z")),
        n("λ w (x y z) (λ y w y)")
    );
}

#[test]
fn substitute_with_lambda() {
    assert_eq!(n("x").substitute("x", &n("λ x x")), n("λ x x"));

    assert_eq!(
        n("x y z").substitute("y", &n("λ x x y")),
        n("x (λ x x y) z")
    );

    assert_eq!(n("λ x y").substitute("y", &n("λ x x")), n("λ x (λ x x)"));

    assert_eq!(
        n("λ x y (λ y x y)").substitute("y", &n("λ x x y z")),
        n("λ x (λ x x y z) (λ y x y)")
    );

    assert_eq!(
        n("λ x y (λ y x y)").substitute("y", &n("λ y x y z")),
        n("λ w (λ y x y z) (λ y w y)")
    );

    assert_eq!(
        n("λ x y (λ y x y)").substitute("y", &n("λ z x y z")),
        n("λ z (λ z x y z) (λ y z y)")
    );
}

// De Bruijn literals.

#[test]
fn tests_macro_var() {
    assert_eq!(u("0"), UTerm::var(0));
    assert_eq!(u("(1)"), UTerm::var(1));
}

#[test]
fn tests_macro_apply() {
    assert_eq!(u("1 2"), UTerm::apply(UTerm::var(1), UTerm::var(2)));
    assert_eq!(u("(3 4)"), UTerm::apply(UTerm::var(3), UTerm::var(4)));

    assert_eq!(
        u("0 1 2"),
        UTerm::apply(UTerm::apply(UTerm::var(0), UTerm::var(1)), UTerm::var(2))
    );

    assert_eq!(
        u("0 1 2 3"),
        UTerm::apply(
            UTerm::apply(UTerm::apply(UTerm::var(0), UTerm::var(1)), UTerm::var(2)),
            UTerm::var(3)
        )
    );

    assert_eq!(
        u("(0 1) 2"),
        UTerm::apply(UTerm::apply(UTerm::var(0), UTerm::var(1)), UTerm::var(2))
    );

    assert_eq!(
        u("0 (1 2)"),
        UTerm::apply(UTerm::var(0), UTerm::apply(UTerm::var(1), UTerm::var(2)))
    );
}

#[test]
fn tests_macro_lambda() {
    assert_eq!(u("λ 0"), UTerm::lambda(UTerm::var(0)));
    assert_eq!(u("(λ 0)"), UTerm::lambda(UTerm::var(0)));
    assert_eq!(u("λ 1"), UTerm::lambda(UTerm::var(1)));

    assert_eq!(u("λ λ 1"), UTerm::lambda(UTerm::lambda(UTerm::var(1))));

    assert_eq!(
        u("λ (λ λ (0))"),
        UTerm::lambda(UTerm::lambda(UTerm::lambda(UTerm::var(0))))
    );
}

#[test]
fn tests_macro_apply_and_lambda() {
    assert_eq!(
        u("λ 0 1 2"),
        UTerm::lambda(UTerm::apply(
            UTerm::apply(UTerm::var(0), UTerm::var(1)),
            UTerm::var(2)
        ))
    );

    assert_eq!(
        u("(λ 0) 1 2"),
        UTerm::apply(
            UTerm::apply(UTerm::lambda(UTerm::var(0)), UTerm::var(1)),
            UTerm::var(2)
        )
    );

    assert_eq!(
        u("λ 0 (λ 0)"),
        UTerm::lambda(UTerm::apply(UTerm::var(0), UTerm::lambda(UTerm::var(0))))
    );

    assert_eq!(
        u("(λ 0) (λ 0)"),
        UTerm::apply(UTerm::lambda(UTerm::var(0)), UTerm::lambda(UTerm::var(0)))
    );
}

// De Bruijn substitution, as a free function.

#[test]
fn substitution_simple() {
    assert_eq!(substitute(&u("0"), 0, &u("2")), u("2"));
    assert_eq!(substitute(&u("1"), 0, &u("2")), u("1"));
    assert_eq!(substitute(&u("0 1 2"), 1, &u("2")), u("0 2 2"));
}

#[test]
fn substitution_lambda_simple() {
    // (λ 0)[0 -> 1] = (λ 0)
    assert_eq!(substitute(&u("λ 0"), 0, &u("1")), u("λ 0"));

    // (λ 0 1)[0 -> 1] = (λ 0 2)
    assert_eq!(substitute(&u("λ 0 1"), 0, &u("1")), u("λ 0 2"));

    // (λ 0 2)[0 -> 1] = (λ 0 2)
    assert_eq!(substitute(&u("λ 0 2"), 0, &u("1")), u("λ 0 2"));

    // (λ 0 3)[0 -> 1] = (λ 0 3)
    assert_eq!(substitute(&u("λ 0 3"), 0, &u("1")), u("λ 0 3"));

    // (λ 0 1)[0 -> (1 2)] = (λ 0 (2 3))
    assert_eq!(substitute(&u("λ 0 1"), 0, &u("1 2")), u("λ 0 (2 3)"));

    // (λ 0 1)[0 -> (λ 1)] = (λ 0 (λ 2))
    assert_eq!(substitute(&u("λ 0 1"), 0, &u("λ 1")), u("λ 0 (λ 2)"));
}

#[test]
fn substitution_lambda_nested() {
    // (λ 0 (λ 2))[0 -> 1] = (λ 0 (λ 3))
    assert_eq!(substitute(&u("λ 0 (λ 2)"), 0, &u("1")), u("λ 0 (λ 3)"));
}

#[test]
fn substitution_lambda_overflow() {
    // (λ 0 max)[0 -> 1] = (λ 0 max)
    assert_eq!(substitute(&u("λ 0 max"), 0, &u("1")), u("λ 0 max"));
}

// De Bruijn terms.

#[test]
fn tests_conversion() {
    assert_eq!(UTerm::from_named(&n("x")), (u("0"), names(&["x"])));
    assert_eq!(UTerm::from_named(&n("x y")), (u("0 1"), names(&["x", "y"])));

    assert_eq!(UTerm::from_named(&n("λ x x")), (u("λ 0"), names(&[])));
    assert_eq!(UTerm::from_named(&n("λ x y")), (u("λ 1"), names(&["y"])));
    assert_eq!(UTerm::from_named(&n("λ x x y")), (u("λ 0 1"), names(&["y"])));
    assert_eq!(UTerm::from_named(&n("λ x y x")), (u("λ 1 0"), names(&["y"])));

    assert_eq!(UTerm::from_named(&n("λ x λ y x")), (u("λ λ 1"), names(&[])));
    assert_eq!(UTerm::from_named(&n("λ x λ y y")), (u("λ λ 0"), names(&[])));
    assert_eq!(UTerm::from_named(&n("λ x λ y z")), (u("λ λ 2"), names(&["z"])));

    assert_eq!(
        UTerm::from_named(&n("(λ x x) (λ y y)")),
        (u("(λ 0) (λ 0)"), names(&[]))
    );
    assert_eq!(UTerm::from_named(&n("(λ x x) x")), (u("(λ 0) 0"), names(&["x"])));
    assert_eq!(
        UTerm::from_named(&n("(λ x y) x")),
        (u("(λ 1) 1"), names(&["y", "x"]))
    );
    assert_eq!(UTerm::from_named(&n("x (λ x x)")), (u("0 (λ 0)"), names(&["x"])));
    assert_eq!(
        UTerm::from_named(&n("(λ x λ y x) (λ x x)")),
        (u("(λ λ 1) (λ 0)"), names(&[]))
    );
}

#[test]
fn substitute_no_match() {
    assert_eq!(u("1").substitute(0, &u("2")), u("1"));
    assert_eq!(u("0 2").substitute(1, &u("3")), u("0 2"));
    assert_eq!(u("λ 0").substitute(0, &u("2")), u("λ 0"));
    assert_eq!(u("λ 0 2").substitute(0, &u("2")), u("λ 0 2"));
    assert_eq!(u("λ 0 max").substitute(0, &u("1")), u("λ 0 max"));
}

#[test]
fn tests_substitute_with_var() {
    assert_eq!(u("0").substitute(0, &u("2")), u("2"));
    assert_eq!(u("0 1 2").substitute(1, &u("2")), u("0 2 2"));
    assert_eq!(u("λ 1").substitute(0, &u("2")), u("λ 3"));
    assert_eq!(u("λ 0 1 2").substitute(0, &u("2")), u("λ 0 3 2"));
}

#[test]
fn tests_substitute_with_application() {
    assert_eq!(u("0").substitute(0, &u("0 1 2")), u("0 1 2"));
    assert_eq!(u("0 1 2").substitute(1, &u("0 1 2")), u("0 (0 1 2) 2"));
    assert_eq!(u("λ 1").substitute(0, &u("0 1 2")), u("λ 1 2 3"));
    assert_eq!(u("λ 0 1 2").substitute(0, &u("0 1 2")), u("λ 0 (1 2 3) 2"));
}

#[test]
fn tests_substitute_with_lambda() {
    assert_eq!(u("0").substitute(0, &u("λ 0")), u("λ 0"));
    assert_eq!(u("0").substitute(0, &u("λ 0 1")), u("λ 0 1"));
    assert_eq!(u("0 1 2").substitute(1, &u("λ 0 1")), u("0 (λ 0 1) 2"));
    assert_eq!(u("λ 1").substitute(0, &u("λ 0 1")), u("λ λ 0 2"));
    assert_eq!(u("λ 0 1 2").substitute(0, &u("λ 0 1 2")), u("λ 0 (λ 0 2 3) 2"));
}
