//! Syntactic equality, alpha-equivalence, occurrence analysis and
//! substitution matching on terms and formulas. These are the comparisons
//! the rule checker works with.

use vstd::prelude::*;
use crate::data::{Term, Wff};

verus! {

/// Whether the name `x` is one of the names in `vs`.
pub open spec fn contains_name(vs: Seq<String>, x: Seq<char>) -> bool {
    exists|i: int| 0 <= i < vs.len() && #[trigger] vs[i]@ == x
}

/// Structural equality of terms.
pub open spec fn term_eq(a: Term, b: Term) -> bool
    decreases a,
{
    match (a, b) {
        (Term::Atomic(x), Term::Atomic(y)) => x@ == y@,
        (Term::FuncApp(f, xs), Term::FuncApp(g, ys)) => f@ == g@ && xs@.len() == ys@.len()
            && (forall|i: int| 0 <= i < xs@.len() ==> term_eq(#[trigger] xs@[i], ys@[i])),
        _ => false,
    }
}

/// Structural (syntactic) equality of formulas.
pub open spec fn wff_eq(a: Wff, b: Wff) -> bool
    decreases a,
{
    match (a, b) {
        (Wff::And(xs), Wff::And(ys)) => xs@.len() == ys@.len() && (forall|i: int|
            0 <= i < xs@.len() ==> wff_eq(#[trigger] xs@[i], ys@[i])),
        (Wff::Or(xs), Wff::Or(ys)) => xs@.len() == ys@.len() && (forall|i: int|
            0 <= i < xs@.len() ==> wff_eq(#[trigger] xs@[i], ys@[i])),
        (Wff::Implies(a1, a2), Wff::Implies(b1, b2)) => wff_eq(*a1, *b1) && wff_eq(*a2, *b2),
        (Wff::Bicond(a1, a2), Wff::Bicond(b1, b2)) => wff_eq(*a1, *b1) && wff_eq(*a2, *b2),
        (Wff::Not(a1), Wff::Not(b1)) => wff_eq(*a1, *b1),
        (Wff::Bottom, Wff::Bottom) => true,
        (Wff::Forall(x, a1), Wff::Forall(y, b1)) => x@ == y@ && wff_eq(*a1, *b1),
        (Wff::Exists(x, a1), Wff::Exists(y, b1)) => x@ == y@ && wff_eq(*a1, *b1),
        (Wff::Atomic(x), Wff::Atomic(y)) => x@ == y@,
        (Wff::PredApp(f, xs), Wff::PredApp(g, ys)) => f@ == g@ && xs@.len() == ys@.len() && (
        forall|i: int| 0 <= i < xs@.len() ==> term_eq(#[trigger] xs@[i], ys@[i])),
        (Wff::Equals(x1, x2), Wff::Equals(y1, y2)) => term_eq(x1, y1) && term_eq(x2, y2),
        _ => false,
    }
}

/// Whether the atomic name `x` occurs (as a term) somewhere in `t`.
pub open spec fn term_has_name(t: Term, x: Seq<char>) -> bool
    decreases t,
{
    match t {
        Term::Atomic(n) => n@ == x,
        Term::FuncApp(_f, ts) => exists|i: int|
            0 <= i < ts@.len() && term_has_name(#[trigger] ts@[i], x),
    }
}

/// Whether the name `x` occurs free (as a term) in `w`: an occurrence under
/// a quantifier binding `x` does not count.
pub open spec fn free_in_wff(w: Wff, x: Seq<char>) -> bool
    decreases w,
{
    match w {
        Wff::And(cs) => exists|i: int| 0 <= i < cs@.len() && free_in_wff(#[trigger] cs@[i], x),
        Wff::Or(cs) => exists|i: int| 0 <= i < cs@.len() && free_in_wff(#[trigger] cs@[i], x),
        Wff::Implies(a, b) => free_in_wff(*a, x) || free_in_wff(*b, x),
        Wff::Bicond(a, b) => free_in_wff(*a, x) || free_in_wff(*b, x),
        Wff::Not(a) => free_in_wff(*a, x),
        Wff::Bottom => false,
        Wff::Forall(v, b) => v@ != x && free_in_wff(*b, x),
        Wff::Exists(v, b) => v@ != x && free_in_wff(*b, x),
        Wff::Atomic(_) => false,
        Wff::PredApp(_f, ts) => exists|i: int|
            0 <= i < ts@.len() && term_has_name(#[trigger] ts@[i], x),
        Wff::Equals(t1, t2) => term_has_name(t1, x) || term_has_name(t2, x),
    }
}

/// Whether the name `x` occurs as a term name anywhere in `w`, bound or free.
pub open spec fn wff_mentions(w: Wff, x: Seq<char>) -> bool
    decreases w,
{
    match w {
        Wff::And(cs) => exists|i: int| 0 <= i < cs@.len() && wff_mentions(#[trigger] cs@[i], x),
        Wff::Or(cs) => exists|i: int| 0 <= i < cs@.len() && wff_mentions(#[trigger] cs@[i], x),
        Wff::Implies(a, b) => wff_mentions(*a, x) || wff_mentions(*b, x),
        Wff::Bicond(a, b) => wff_mentions(*a, x) || wff_mentions(*b, x),
        Wff::Not(a) => wff_mentions(*a, x),
        Wff::Bottom => false,
        Wff::Forall(_v, b) => wff_mentions(*b, x),
        Wff::Exists(_v, b) => wff_mentions(*b, x),
        Wff::Atomic(_) => false,
        Wff::PredApp(_f, ts) => exists|i: int|
            0 <= i < ts@.len() && term_has_name(#[trigger] ts@[i], x),
        Wff::Equals(t1, t2) => term_has_name(t1, x) || term_has_name(t2, x),
    }
}

/// A name that occurs free in a formula occurs in it.
pub proof fn lemma_free_in_mentions(w: Wff, x: Seq<char>)
    requires
        free_in_wff(w, x),
    ensures
        wff_mentions(w, x),
    decreases w,
{
    match w {
        Wff::And(cs) => {
            let i = choose|i: int| 0 <= i < cs@.len() && free_in_wff(#[trigger] cs@[i], x);
            lemma_free_in_mentions(cs@[i], x);
        },
        Wff::Or(cs) => {
            let i = choose|i: int| 0 <= i < cs@.len() && free_in_wff(#[trigger] cs@[i], x);
            lemma_free_in_mentions(cs@[i], x);
        },
        Wff::Implies(a, b) => {
            if free_in_wff(*a, x) {
                lemma_free_in_mentions(*a, x);
            } else {
                lemma_free_in_mentions(*b, x);
            }
        },
        Wff::Bicond(a, b) => {
            if free_in_wff(*a, x) {
                lemma_free_in_mentions(*a, x);
            } else {
                lemma_free_in_mentions(*b, x);
            }
        },
        Wff::Not(a) => {
            lemma_free_in_mentions(*a, x);
        },
        Wff::Forall(_v, b) => {
            lemma_free_in_mentions(*b, x);
        },
        Wff::Exists(_v, b) => {
            lemma_free_in_mentions(*b, x);
        },
        _ => {},
    }
}

/// Whether two free names correspond under the parallel binder environment:
/// the innermost binding of either side decides, and unbound names must be
/// identical.
pub open spec fn names_match(x: Seq<char>, y: Seq<char>, env: Seq<(Seq<char>, Seq<char>)>) -> bool
    decreases env.len(),
{
    if env.len() == 0 {
        x == y
    } else {
        let p = env.last();
        if p.0 == x || p.1 == y {
            p.0 == x && p.1 == y
        } else {
            names_match(x, y, env.drop_last())
        }
    }
}

/// Alpha-equivalence of terms under a binder environment.
pub open spec fn term_alpha_eq(a: Term, b: Term, env: Seq<(Seq<char>, Seq<char>)>) -> bool
    decreases a,
{
    match (a, b) {
        (Term::Atomic(x), Term::Atomic(y)) => names_match(x@, y@, env),
        (Term::FuncApp(f, xs), Term::FuncApp(g, ys)) => f@ == g@ && xs@.len() == ys@.len() && (
        forall|i: int| 0 <= i < xs@.len() ==> term_alpha_eq(#[trigger] xs@[i], ys@[i], env)),
        _ => false,
    }
}

/// Alpha-equivalence of formulas under a binder environment.
pub open spec fn wff_alpha_eq(a: Wff, b: Wff, env: Seq<(Seq<char>, Seq<char>)>) -> bool
    decreases a,
{
    match (a, b) {
        (Wff::And(xs), Wff::And(ys)) => xs@.len() == ys@.len() && (forall|i: int|
            0 <= i < xs@.len() ==> wff_alpha_eq(#[trigger] xs@[i], ys@[i], env)),
        (Wff::Or(xs), Wff::Or(ys)) => xs@.len() == ys@.len() && (forall|i: int|
            0 <= i < xs@.len() ==> wff_alpha_eq(#[trigger] xs@[i], ys@[i], env)),
        (Wff::Implies(a1, a2), Wff::Implies(b1, b2)) => wff_alpha_eq(*a1, *b1, env) && wff_alpha_eq(
            *a2,
            *b2,
            env,
        ),
        (Wff::Bicond(a1, a2), Wff::Bicond(b1, b2)) => wff_alpha_eq(*a1, *b1, env) && wff_alpha_eq(
            *a2,
            *b2,
            env,
        ),
        (Wff::Not(a1), Wff::Not(b1)) => wff_alpha_eq(*a1, *b1, env),
        (Wff::Bottom, Wff::Bottom) => true,
        (Wff::Forall(x, a1), Wff::Forall(y, b1)) => wff_alpha_eq(*a1, *b1, env.push((x@, y@))),
        (Wff::Exists(x, a1), Wff::Exists(y, b1)) => wff_alpha_eq(*a1, *b1, env.push((x@, y@))),
        (Wff::Atomic(x), Wff::Atomic(y)) => x@ == y@,
        (Wff::PredApp(f, xs), Wff::PredApp(g, ys)) => f@ == g@ && xs@.len() == ys@.len() && (
        forall|i: int| 0 <= i < xs@.len() ==> term_alpha_eq(#[trigger] xs@[i], ys@[i], env)),
        (Wff::Equals(x1, x2), Wff::Equals(y1, y2)) => term_alpha_eq(x1, y1, env) && term_alpha_eq(
            x2,
            y2,
            env,
        ),
        _ => false,
    }
}

/// Alpha-equivalence: structural equality up to consistent renaming of bound
/// variables.
pub open spec fn alpha_equiv_spec(a: Wff, b: Wff) -> bool {
    wff_alpha_eq(a, b, Seq::empty())
}

/// No name of `t` is one of the binder names in `bound`.
pub open spec fn term_avoids(t: Term, bound: Seq<Seq<char>>) -> bool {
    forall|i: int| 0 <= i < bound.len() ==> !term_has_name(t, #[trigger] bound[i])
}

/// `a` is obtained from the pattern `p` by replacing zero or more
/// occurrences of the term `rep` by `rpl`, where a replacement may only
/// happen at a position where no name of `rep` or `rpl` is captured by an
/// enclosing binder.
pub open spec fn mar_term(p: Term, a: Term, rep: Term, rpl: Term, bound: Seq<Seq<char>>) -> bool
    decreases p,
{
    ||| (term_eq(p, rep) && term_eq(a, rpl) && term_avoids(rep, bound) && term_avoids(rpl, bound))
    ||| match (p, a) {
        (Term::Atomic(x), Term::Atomic(y)) => x@ == y@,
        (Term::FuncApp(f, xs), Term::FuncApp(g, ys)) => f@ == g@ && xs@.len() == ys@.len() && (
        forall|i: int| 0 <= i < xs@.len() ==> mar_term(#[trigger] xs@[i], ys@[i], rep, rpl, bound)),
        _ => false,
    }
}

/// `a` is obtained from the formula `p` by replacing zero or more free
/// occurrences of the term `rep` by `rpl`.
pub open spec fn mar_wff(p: Wff, a: Wff, rep: Term, rpl: Term, bound: Seq<Seq<char>>) -> bool
    decreases p,
{
    match (p, a) {
        (Wff::And(xs), Wff::And(ys)) => xs@.len() == ys@.len() && (forall|i: int|
            0 <= i < xs@.len() ==> mar_wff(#[trigger] xs@[i], ys@[i], rep, rpl, bound)),
        (Wff::Or(xs), Wff::Or(ys)) => xs@.len() == ys@.len() && (forall|i: int|
            0 <= i < xs@.len() ==> mar_wff(#[trigger] xs@[i], ys@[i], rep, rpl, bound)),
        (Wff::Implies(a1, a2), Wff::Implies(b1, b2)) => mar_wff(*a1, *b1, rep, rpl, bound)
            && mar_wff(*a2, *b2, rep, rpl, bound),
        (Wff::Bicond(a1, a2), Wff::Bicond(b1, b2)) => mar_wff(*a1, *b1, rep, rpl, bound)
            && mar_wff(*a2, *b2, rep, rpl, bound),
        (Wff::Not(a1), Wff::Not(b1)) => mar_wff(*a1, *b1, rep, rpl, bound),
        (Wff::Bottom, Wff::Bottom) => true,
        (Wff::Forall(x, a1), Wff::Forall(y, b1)) => x@ == y@ && mar_wff(
            *a1,
            *b1,
            rep,
            rpl,
            bound.push(x@),
        ),
        (Wff::Exists(x, a1), Wff::Exists(y, b1)) => x@ == y@ && mar_wff(
            *a1,
            *b1,
            rep,
            rpl,
            bound.push(x@),
        ),
        (Wff::Atomic(x), Wff::Atomic(y)) => x@ == y@,
        (Wff::PredApp(f, xs), Wff::PredApp(g, ys)) => f@ == g@ && xs@.len() == ys@.len() && (
        forall|i: int|
            0 <= i < xs@.len() ==> mar_term(#[trigger] xs@[i], ys@[i], rep, rpl, bound)),
        (Wff::Equals(x1, x2), Wff::Equals(y1, y2)) => mar_term(x1, y1, rep, rpl, bound) && mar_term(
            x2,
            y2,
            rep,
            rpl,
            bound,
        ),
        _ => false,
    }
}

/// `a` is `p` with every free occurrence of the variable `x` replaced by the
/// term `t` (capture is forbidden: a replacement under a binder that binds a
/// name of `t` does not match).
pub open spec fn sa_term(p: Term, a: Term, x: Seq<char>, t: Term, bound: Seq<Seq<char>>) -> bool
    decreases p,
{
    match p {
        Term::Atomic(n) => {
            if n@ == x && !bound.contains(x) {
                term_eq(a, t) && term_avoids(t, bound)
            } else {
                term_eq(a, p)
            }
        },
        Term::FuncApp(f, xs) => match a {
            Term::FuncApp(g, ys) => f@ == g@ && xs@.len() == ys@.len() && (forall|i: int|
                0 <= i < xs@.len() ==> sa_term(#[trigger] xs@[i], ys@[i], x, t, bound)),
            _ => false,
        },
    }
}

/// `a` is `p` with every free occurrence of the variable `x` replaced by `t`.
pub open spec fn sa_wff(p: Wff, a: Wff, x: Seq<char>, t: Term, bound: Seq<Seq<char>>) -> bool
    decreases p,
{
    match (p, a) {
        (Wff::And(xs), Wff::And(ys)) => xs@.len() == ys@.len() && (forall|i: int|
            0 <= i < xs@.len() ==> sa_wff(#[trigger] xs@[i], ys@[i], x, t, bound)),
        (Wff::Or(xs), Wff::Or(ys)) => xs@.len() == ys@.len() && (forall|i: int|
            0 <= i < xs@.len() ==> sa_wff(#[trigger] xs@[i], ys@[i], x, t, bound)),
        (Wff::Implies(a1, a2), Wff::Implies(b1, b2)) => sa_wff(*a1, *b1, x, t, bound) && sa_wff(
            *a2,
            *b2,
            x,
            t,
            bound,
        ),
        (Wff::Bicond(a1, a2), Wff::Bicond(b1, b2)) => sa_wff(*a1, *b1, x, t, bound) && sa_wff(
            *a2,
            *b2,
            x,
            t,
            bound,
        ),
        (Wff::Not(a1), Wff::Not(b1)) => sa_wff(*a1, *b1, x, t, bound),
        (Wff::Bottom, Wff::Bottom) => true,
        (Wff::Forall(v, a1), Wff::Forall(w, b1)) => v@ == w@ && sa_wff(
            *a1,
            *b1,
            x,
            t,
            bound.push(v@),
        ),
        (Wff::Exists(v, a1), Wff::Exists(w, b1)) => v@ == w@ && sa_wff(
            *a1,
            *b1,
            x,
            t,
            bound.push(v@),
        ),
        (Wff::Atomic(n1), Wff::Atomic(n2)) => n1@ == n2@,
        (Wff::PredApp(f, xs), Wff::PredApp(g, ys)) => f@ == g@ && xs@.len() == ys@.len() && (
        forall|i: int| 0 <= i < xs@.len() ==> sa_term(#[trigger] xs@[i], ys@[i], x, t, bound)),
        (Wff::Equals(x1, x2), Wff::Equals(y1, y2)) => sa_term(x1, y1, x, t, bound) && sa_term(
            x2,
            y2,
            x,
            t,
            bound,
        ),
        _ => false,
    }
}

/// Joining a newly inferred witness term with the witness collected so far:
/// the first witness is kept, and a later, different witness is a mismatch.
pub open spec fn cand_join(acc: Option<Term>, t: Term) -> Option<Option<Term>> {
    match acc {
        Option::None => Some(Some(t)),
        Option::Some(c) => if term_eq(c, t) {
            Some(Some(c))
        } else {
            None
        },
    }
}

/// Matches `a` against the pattern `p` in which the variable `x` stands for
/// an unknown term: at every free occurrence of `x` the corresponding
/// subterm of `a` is collected as the witness (all occurrences must agree
/// and must not be captured), everything else must be equal. `None` means
/// mismatch; `Some(acc)` carries the witness found so far, if any.
pub open spec fn sa_infer_term(
    p: Term,
    a: Term,
    x: Seq<char>,
    bound: Seq<Seq<char>>,
    acc: Option<Term>,
) -> Option<Option<Term>>
    decreases p, 0int,
{
    match p {
        Term::Atomic(n) => {
            if n@ == x && !bound.contains(x) {
                if term_avoids(a, bound) {
                    cand_join(acc, a)
                } else {
                    None
                }
            } else {
                if term_eq(a, p) {
                    Some(acc)
                } else {
                    None
                }
            }
        },
        Term::FuncApp(f, xs) => match a {
            Term::FuncApp(g, ys) => if f@ == g@ && xs@.len() == ys@.len() {
                sa_infer_terms(xs, ys, 0, x, bound, acc)
            } else {
                None
            },
            _ => None,
        },
    }
}

pub open spec fn sa_infer_terms(
    xs: Vec<Term>,
    ys: Vec<Term>,
    i: int,
    x: Seq<char>,
    bound: Seq<Seq<char>>,
    acc: Option<Term>,
) -> Option<Option<Term>>
    decreases xs, xs@.len() - i + 1,
{
    if i < 0 || i >= xs@.len() || ys@.len() != xs@.len() {
        Some(acc)
    } else {
        match sa_infer_term(xs@[i], ys@[i], x, bound, acc) {
            Option::None => None,
            Option::Some(acc2) => sa_infer_terms(xs, ys, i + 1, x, bound, acc2),
        }
    }
}

/// The formula-level matcher behind `sa_infer_term`.
pub open spec fn sa_infer_wff(
    p: Wff,
    a: Wff,
    x: Seq<char>,
    bound: Seq<Seq<char>>,
    acc: Option<Term>,
) -> Option<Option<Term>>
    decreases p, 0int,
{
    match (p, a) {
        (Wff::And(xs), Wff::And(ys)) => if xs@.len() == ys@.len() {
            sa_infer_wffs(xs, ys, 0, x, bound, acc)
        } else {
            None
        },
        (Wff::Or(xs), Wff::Or(ys)) => if xs@.len() == ys@.len() {
            sa_infer_wffs(xs, ys, 0, x, bound, acc)
        } else {
            None
        },
        (Wff::Implies(a1, a2), Wff::Implies(b1, b2)) => match sa_infer_wff(*a1, *b1, x, bound, acc) {
            Option::None => None,
            Option::Some(acc2) => sa_infer_wff(*a2, *b2, x, bound, acc2),
        },
        (Wff::Bicond(a1, a2), Wff::Bicond(b1, b2)) => match sa_infer_wff(*a1, *b1, x, bound, acc) {
            Option::None => None,
            Option::Some(acc2) => sa_infer_wff(*a2, *b2, x, bound, acc2),
        },
        (Wff::Not(a1), Wff::Not(b1)) => sa_infer_wff(*a1, *b1, x, bound, acc),
        (Wff::Bottom, Wff::Bottom) => Some(acc),
        (Wff::Forall(v, a1), Wff::Forall(w, b1)) => if v@ == w@ {
            sa_infer_wff(*a1, *b1, x, bound.push(v@), acc)
        } else {
            None
        },
        (Wff::Exists(v, a1), Wff::Exists(w, b1)) => if v@ == w@ {
            sa_infer_wff(*a1, *b1, x, bound.push(v@), acc)
        } else {
            None
        },
        (Wff::Atomic(n1), Wff::Atomic(n2)) => if n1@ == n2@ {
            Some(acc)
        } else {
            None
        },
        (Wff::PredApp(f, xs), Wff::PredApp(g, ys)) => if f@ == g@ && xs@.len() == ys@.len() {
            sa_infer_terms(xs, ys, 0, x, bound, acc)
        } else {
            None
        },
        (Wff::Equals(x1, x2), Wff::Equals(y1, y2)) => match sa_infer_term(x1, y1, x, bound, acc) {
            Option::None => None,
            Option::Some(acc2) => sa_infer_term(x2, y2, x, bound, acc2),
        },
        _ => None,
    }
}

pub open spec fn sa_infer_wffs(
    xs: Vec<Wff>,
    ys: Vec<Wff>,
    i: int,
    x: Seq<char>,
    bound: Seq<Seq<char>>,
    acc: Option<Term>,
) -> Option<Option<Term>>
    decreases xs, xs@.len() - i + 1,
{
    if i < 0 || i >= xs@.len() || ys@.len() != xs@.len() {
        Some(acc)
    } else {
        match sa_infer_wff(xs@[i], ys@[i], x, bound, acc) {
            Option::None => None,
            Option::Some(acc2) => sa_infer_wffs(xs, ys, i + 1, x, bound, acc2),
        }
    }
}

/// Whether `a` is `p` with some single term substituted for every free
/// occurrence of the variable `x`: what a quantifier elimination or
/// introduction accepts when the witness term is not spelled out.
///
/// The strict reading of substitution is used throughout: a match at a
/// position where a name of the substituted term is captured by an inner
/// binder is refused outright, rather than accepted after alpha-renaming
/// that binder. An instance that would need renaming is therefore rejected.
pub open spec fn subst_match(p: Wff, a: Wff, x: Seq<char>) -> bool {
    sa_infer_wff(p, a, x, Seq::empty(), None) is Some
}

/// The names of `bound`, in order.
pub open spec fn name_views(bound: Seq<String>) -> Seq<Seq<char>> {
    bound.map_values(|s: String| s@)
}

/// The name pairs of `env`, in order.
pub open spec fn pair_views(env: Seq<(String, String)>) -> Seq<(Seq<char>, Seq<char>)> {
    env.map_values(|p: (String, String)| (p.0@, p.1@))
}

/// Decides structural equality of terms.
#[verifier::loop_isolation(false)]
pub fn term_eq_exec(a: &Term, b: &Term) -> (r: bool)
    ensures
        r == term_eq(*a, *b),
    decreases *a,
{
    match (a, b) {
        (Term::Atomic(x), Term::Atomic(y)) => *x == *y,
        (Term::FuncApp(f, xs), Term::FuncApp(g, ys)) => {
            if !(*f == *g) || xs.len() != ys.len() {
                return false;
            }
            let mut i: usize = 0;
            while i < xs.len()
                invariant
                    i <= xs@.len(),
                    xs@.len() == ys@.len(),
                    forall|j: int| 0 <= j < i ==> term_eq(#[trigger] xs@[j], ys@[j]),
                decreases xs@.len() - i,
            {
                if !term_eq_exec(&xs[i], &ys[i]) {
                    return false;
                }
                i = i + 1;
            }
            true
        },
        _ => false,
    }
}

/// Decides structural equality of formulas.
pub fn wff_eq_exec(a: &Wff, b: &Wff) -> (r: bool)
    ensures
        r == wff_eq(*a, *b),
    decreases *a,
{
    match (a, b) {
        (Wff::And(xs), Wff::And(ys)) => wff_list_eq_exec(xs, ys),
        (Wff::Or(xs), Wff::Or(ys)) => wff_list_eq_exec(xs, ys),
        (Wff::Implies(a1, a2), Wff::Implies(b1, b2)) => wff_eq_exec(a1, b1) && wff_eq_exec(a2, b2),
        (Wff::Bicond(a1, a2), Wff::Bicond(b1, b2)) => wff_eq_exec(a1, b1) && wff_eq_exec(a2, b2),
        (Wff::Not(a1), Wff::Not(b1)) => wff_eq_exec(a1, b1),
        (Wff::Bottom, Wff::Bottom) => true,
        (Wff::Forall(x, a1), Wff::Forall(y, b1)) => *x == *y && wff_eq_exec(a1, b1),
        (Wff::Exists(x, a1), Wff::Exists(y, b1)) => *x == *y && wff_eq_exec(a1, b1),
        (Wff::Atomic(x), Wff::Atomic(y)) => *x == *y,
        (Wff::PredApp(f, xs), Wff::PredApp(g, ys)) => *f == *g && term_list_eq_exec(xs, ys),
        (Wff::Equals(x1, x2), Wff::Equals(y1, y2)) => term_eq_exec(x1, y1) && term_eq_exec(x2, y2),
        _ => false,
    }
}

/// Decides elementwise structural equality of two formula lists.
#[verifier::loop_isolation(false)]
fn wff_list_eq_exec(xs: &Vec<Wff>, ys: &Vec<Wff>) -> (r: bool)
    ensures
        r == (xs@.len() == ys@.len() && (forall|i: int|
            0 <= i < xs@.len() ==> wff_eq(#[trigger] xs@[i], ys@[i]))),
    decreases *xs,
{
    if xs.len() != ys.len() {
        return false;
    }
    let mut i: usize = 0;
    while i < xs.len()
        invariant
            i <= xs@.len(),
            xs@.len() == ys@.len(),
            forall|j: int| 0 <= j < i ==> wff_eq(#[trigger] xs@[j], ys@[j]),
        decreases xs@.len() - i,
    {
        if !wff_eq_exec(&xs[i], &ys[i]) {
            return false;
        }
        i = i + 1;
    }
    true
}

/// Decides elementwise structural equality of two term lists.
#[verifier::loop_isolation(false)]
fn term_list_eq_exec(xs: &Vec<Term>, ys: &Vec<Term>) -> (r: bool)
    ensures
        r == (xs@.len() == ys@.len() && (forall|i: int|
            0 <= i < xs@.len() ==> term_eq(#[trigger] xs@[i], ys@[i]))),
{
    if xs.len() != ys.len() {
        return false;
    }
    let mut i: usize = 0;
    while i < xs.len()
        invariant
            i <= xs@.len(),
            xs@.len() == ys@.len(),
            forall|j: int| 0 <= j < i ==> term_eq(#[trigger] xs@[j], ys@[j]),
        decreases xs@.len() - i,
    {
        if !term_eq_exec(&xs[i], &ys[i]) {
            return false;
        }
        i = i + 1;
    }
    true
}

/// Decides whether the atomic name `x` occurs in `t`.
#[verifier::loop_isolation(false)]
pub fn term_has_name_exec(t: &Term, x: &String) -> (r: bool)
    ensures
        r == term_has_name(*t, x@),
    decreases *t,
{
    match t {
        Term::Atomic(n) => *n == *x,
        Term::FuncApp(_f, ts) => {
            let mut i: usize = 0;
            while i < ts.len()
                invariant
                    i <= ts@.len(),
                    forall|j: int| 0 <= j < i ==> !term_has_name(#[trigger] ts@[j], x@),
                decreases ts@.len() - i,
            {
                if term_has_name_exec(&ts[i], x) {
                    return true;
                }
                i = i + 1;
            }
            false
        },
    }
}

/// Decides whether the name `x` occurs free in `w`.
#[verifier::loop_isolation(false)]
pub fn free_in_wff_exec(w: &Wff, x: &String) -> (r: bool)
    ensures
        r == free_in_wff(*w, x@),
    decreases *w,
{
    match w {
        Wff::And(cs) => free_in_wff_list_exec(cs, x),
        Wff::Or(cs) => free_in_wff_list_exec(cs, x),
        Wff::Implies(a, b) => free_in_wff_exec(a, x) || free_in_wff_exec(b, x),
        Wff::Bicond(a, b) => free_in_wff_exec(a, x) || free_in_wff_exec(b, x),
        Wff::Not(a) => free_in_wff_exec(a, x),
        Wff::Bottom => false,
        Wff::Forall(v, b) => !(*v == *x) && free_in_wff_exec(b, x),
        Wff::Exists(v, b) => !(*v == *x) && free_in_wff_exec(b, x),
        Wff::Atomic(_) => false,
        Wff::PredApp(_f, ts) => {
            let mut i: usize = 0;
            while i < ts.len()
                invariant
                    i <= ts@.len(),
                    forall|j: int| 0 <= j < i ==> !term_has_name(#[trigger] ts@[j], x@),
                decreases ts@.len() - i,
            {
                if term_has_name_exec(&ts[i], x) {
                    return true;
                }
                i = i + 1;
            }
            false
        },
        Wff::Equals(t1, t2) => term_has_name_exec(t1, x) || term_has_name_exec(t2, x),
    }
}

/// Decides whether the name `x` occurs free in any formula of the list.
#[verifier::loop_isolation(false)]
fn free_in_wff_list_exec(cs: &Vec<Wff>, x: &String) -> (r: bool)
    ensures
        r == (exists|i: int| 0 <= i < cs@.len() && free_in_wff(#[trigger] cs@[i], x@)),
    decreases *cs,
{
    let mut i: usize = 0;
    while i < cs.len()
        invariant
            i <= cs@.len(),
            forall|j: int| 0 <= j < i ==> !free_in_wff(#[trigger] cs@[j], x@),
        decreases cs@.len() - i,
    {
        if free_in_wff_exec(&cs[i], x) {
            return true;
        }
        i = i + 1;
    }
    false
}

/// `fresh_for`: the name does not occur free in the formula.
pub fn fresh_for(name: &String, f: &Wff) -> (r: bool)
    ensures
        r == !free_in_wff(*f, name@),
{
    !free_in_wff_exec(f, name)
}

pub proof fn lemma_contains_name_push(vs: Seq<String>, v: String, x: Seq<char>)
    ensures
        contains_name(vs.push(v), x) == (contains_name(vs, x) || v@ == x),
{
    if contains_name(vs.push(v), x) {
        let i = choose|i: int| 0 <= i < vs.push(v).len() && #[trigger] vs.push(v)[i]@ == x;
        if i < vs.len() {
            assert(vs[i]@ == x);
        }
    }
    if contains_name(vs, x) {
        let i = choose|i: int| 0 <= i < vs.len() && #[trigger] vs[i]@ == x;
        assert(vs.push(v)[i]@ == x);
    }
    if v@ == x {
        assert(vs.push(v)[vs.len() as int]@ == x);
    }
}

/// Appends every term name of `t` to `out`.
#[verifier::loop_isolation(false)]
fn collect_term_names(t: &Term, out: &mut Vec<String>)
    ensures
        forall|x: Seq<char>|
            #[trigger] contains_name(final(out)@, x) == (contains_name(old(out)@, x)
                || term_has_name(*t, x)),
    decreases *t,
{
    match t {
        Term::Atomic(n) => {
            let ghost pre = out@;
            out.push(n.clone());
            proof {
                assert forall|x: Seq<char>|
                    #[trigger] contains_name(out@, x) == (contains_name(pre, x) || term_has_name(
                        *t,
                        x,
                    )) by {
                    lemma_contains_name_push(pre, out@.last(), x);
                    assert(out@ =~= pre.push(out@.last()));
                }
            }
        },
        Term::FuncApp(_f, ts) => {
            let ghost pre = out@;
            let mut i: usize = 0;
            while i < ts.len()
                invariant
                    i <= ts@.len(),
                    forall|x: Seq<char>|
                        #[trigger] contains_name(out@, x) == (contains_name(pre, x) || (exists|
                            j: int,
                        |
                            0 <= j < i && term_has_name(#[trigger] ts@[j], x))),
                decreases ts@.len() - i,
            {
                let ghost mid = out@;
                collect_term_names(&ts[i], out);
                proof {
                    assert forall|x: Seq<char>|
                        #[trigger] contains_name(out@, x) == (contains_name(pre, x) || (exists|
                            j: int,
                        |
                            0 <= j < i + 1 && term_has_name(#[trigger] ts@[j], x))) by {
                        if contains_name(out@, x) && !contains_name(pre, x) {
                            if !term_has_name(ts@[i as int], x) {
                                let j = choose|j: int|
                                    0 <= j < i && term_has_name(#[trigger] ts@[j], x);
                                assert(term_has_name(ts@[j], x));
                            }
                        }
                        if exists|j: int| 0 <= j < i + 1 && term_has_name(#[trigger] ts@[j], x) {
                            let j = choose|j: int|
                                0 <= j < i + 1 && term_has_name(#[trigger] ts@[j], x);
                            if j < i {
                                assert(contains_name(mid, x));
                            }
                        }
                    }
                }
                i = i + 1;
            }
            proof {
                assert forall|x: Seq<char>|
                    #[trigger] contains_name(out@, x) == (contains_name(pre, x) || term_has_name(
                        *t,
                        x,
                    )) by {}
            }
        },
    }
}

/// Appends every term name occurring in `w` (bound or free) to `out`.
#[verifier::loop_isolation(false)]
fn collect_wff_names(w: &Wff, out: &mut Vec<String>)
    ensures
        forall|x: Seq<char>|
            #[trigger] contains_name(final(out)@, x) == (contains_name(old(out)@, x)
                || wff_mentions(*w, x)),
    decreases *w,
{
    match w {
        Wff::And(cs) => collect_wff_list_names(cs, out),
        Wff::Or(cs) => collect_wff_list_names(cs, out),
        Wff::Implies(a, b) => {
            collect_wff_names(a, out);
            collect_wff_names(b, out);
        },
        Wff::Bicond(a, b) => {
            collect_wff_names(a, out);
            collect_wff_names(b, out);
        },
        Wff::Not(a) => collect_wff_names(a, out),
        Wff::Bottom => {},
        Wff::Forall(_v, b) => collect_wff_names(b, out),
        Wff::Exists(_v, b) => collect_wff_names(b, out),
        Wff::Atomic(_) => {},
        Wff::PredApp(_f, ts) => {
            let ghost pre = out@;
            let mut i: usize = 0;
            while i < ts.len()
                invariant
                    i <= ts@.len(),
                    forall|x: Seq<char>|
                        #[trigger] contains_name(out@, x) == (contains_name(pre, x) || (exists|
                            j: int,
                        |
                            0 <= j < i && term_has_name(#[trigger] ts@[j], x))),
                decreases ts@.len() - i,
            {
                let ghost mid = out@;
                collect_term_names(&ts[i], out);
                proof {
                    assert forall|x: Seq<char>|
                        #[trigger] contains_name(out@, x) == (contains_name(pre, x) || (exists|
                            j: int,
                        |
                            0 <= j < i + 1 && term_has_name(#[trigger] ts@[j], x))) by {
                        if contains_name(out@, x) && !contains_name(pre, x) {
                            if !term_has_name(ts@[i as int], x) {
                                let j = choose|j: int|
                                    0 <= j < i && term_has_name(#[trigger] ts@[j], x);
                                assert(term_has_name(ts@[j], x));
                            }
                        }
                        if exists|j: int| 0 <= j < i + 1 && term_has_name(#[trigger] ts@[j], x) {
                            let j = choose|j: int|
                                0 <= j < i + 1 && term_has_name(#[trigger] ts@[j], x);
                            if j < i {
                                assert(contains_name(mid, x));
                            }
                        }
                    }
                }
                i = i + 1;
            }
        },
        Wff::Equals(t1, t2) => {
            collect_term_names(t1, out);
            collect_term_names(t2, out);
        },
    }
}

/// Appends every term name of the formulas in `cs` to `out`.
#[verifier::loop_isolation(false)]
fn collect_wff_list_names(cs: &Vec<Wff>, out: &mut Vec<String>)
    ensures
        forall|x: Seq<char>|
            #[trigger] contains_name(final(out)@, x) == (contains_name(old(out)@, x) || (exists|
                j: int,
            |
                0 <= j < cs@.len() && wff_mentions(#[trigger] cs@[j], x))),
    decreases *cs,
{
    let ghost pre = out@;
    let mut i: usize = 0;
    while i < cs.len()
        invariant
            i <= cs@.len(),
            forall|x: Seq<char>|
                #[trigger] contains_name(out@, x) == (contains_name(pre, x) || (exists|j: int|
                    0 <= j < i && wff_mentions(#[trigger] cs@[j], x))),
        decreases cs@.len() - i,
    {
        let ghost mid = out@;
        collect_wff_names(&cs[i], out);
        proof {
            assert forall|x: Seq<char>|
                #[trigger] contains_name(out@, x) == (contains_name(pre, x) || (exists|j: int|
                    0 <= j < i + 1 && wff_mentions(#[trigger] cs@[j], x))) by {
                if contains_name(out@, x) && !contains_name(pre, x) {
                    if !wff_mentions(cs@[i as int], x) {
                        let j = choose|j: int| 0 <= j < i && wff_mentions(#[trigger] cs@[j], x);
                        assert(wff_mentions(cs@[j], x));
                    }
                }
                if exists|j: int| 0 <= j < i + 1 && wff_mentions(#[trigger] cs@[j], x) {
                    let j = choose|j: int| 0 <= j < i + 1 && wff_mentions(#[trigger] cs@[j], x);
                    if j < i {
                        assert(contains_name(mid, x));
                    }
                }
            }
        }
        i = i + 1;
    }
}

/// `free_vars`: the names occurring free in the formula. A name stands in
/// the result exactly when it occurs free.
#[verifier::loop_isolation(false)]
pub fn free_vars(formula: &Wff) -> (r: Vec<String>)
    ensures
        forall|x: Seq<char>| #[trigger] contains_name(r@, x) == free_in_wff(*formula, x),
{
    let mut all: Vec<String> = Vec::new();
    collect_wff_names(formula, &mut all);
    let mut out: Vec<String> = Vec::new();
    let mut i: usize = 0;
    while i < all.len()
        invariant
            i <= all@.len(),
            forall|x: Seq<char>|
                #[trigger] contains_name(out@, x) == (contains_name(all@.take(i as int), x)
                    && free_in_wff(*formula, x)),
        decreases all@.len() - i,
    {
        let ghost preout = out@;
        if free_in_wff_exec(formula, &all[i]) {
            out.push(all[i].clone());
        }
        proof {
            assert(all@.take(i + 1).drop_last() =~= all@.take(i as int));
            assert forall|x: Seq<char>|
                #[trigger] contains_name(out@, x) == (contains_name(all@.take(i + 1), x)
                    && free_in_wff(*formula, x)) by {
                lemma_contains_name_push(all@.take(i as int), all@[i as int], x);
                assert(all@.take(i + 1) =~= all@.take(i as int).push(all@[i as int]));
                if free_in_wff(*formula, all@[i as int]@) && all@[i as int]@ == x {
                    assert(out@ =~= preout.push(out@.last()));
                    lemma_contains_name_push(preout, out@.last(), x);
                } else if !(all@[i as int]@ == x) {
                    if out@ != preout {
                        assert(out@ =~= preout.push(out@.last()));
                        lemma_contains_name_push(preout, out@.last(), x);
                    }
                }
            }
        }
        i = i + 1;
    }
    proof {
        assert(all@.take(all@.len() as int) =~= all@);
        assert forall|x: Seq<char>|
            #[trigger] contains_name(out@, x) == free_in_wff(*formula, x) by {
            if free_in_wff(*formula, x) && !contains_name(all@, x) {
                lemma_free_in_mentions(*formula, x);
            }
        }
    }
    out
}

/// Whether `name` belongs to the configured allowed-variable set; any other
/// atomic name is a constant.
#[verifier::loop_isolation(false)]
pub fn is_variable(name: &String, allowed: &Vec<String>) -> (r: bool)
    ensures
        r == contains_name(allowed@, name@),
{
    let mut i: usize = 0;
    while i < allowed.len()
        invariant
            i <= allowed@.len(),
            forall|j: int| 0 <= j < i ==> #[trigger] allowed@[j]@ != name@,
        decreases allowed@.len() - i,
    {
        if allowed[i] == *name {
            return true;
        }
        i = i + 1;
    }
    false
}

/// Looks up how the free names `x` and `y` must correspond under `env`.
#[verifier::loop_isolation(false)]
fn names_match_exec(x: &String, y: &String, env: &Vec<(String, String)>) -> (r: bool)
    ensures
        r == names_match(x@, y@, pair_views(env@)),
{
    let mut k: usize = env.len();
    proof {
        assert(pair_views(env@).take(env@.len() as int) =~= pair_views(env@));
    }
    while k > 0
        invariant
            k <= env@.len(),
            names_match(x@, y@, pair_views(env@)) == names_match(
                x@,
                y@,
                pair_views(env@).take(k as int),
            ),
        decreases k,
    {
        let hit_left = env[k - 1].0 == *x;
        let hit_right = env[k - 1].1 == *y;
        proof {
            assert(pair_views(env@).take(k as int).last() == (env@[k - 1].0@, env@[k - 1].1@));
            assert(pair_views(env@).take(k as int).drop_last() =~= pair_views(env@).take(k - 1));
        }
        if hit_left || hit_right {
            return hit_left && hit_right;
        }
        k = k - 1;
    }
    *x == *y
}

/// Decides alpha-equivalence of terms under the binder environment `env`.
#[verifier::loop_isolation(false)]
fn term_alpha_eq_exec(a: &Term, b: &Term, env: &Vec<(String, String)>) -> (r: bool)
    ensures
        r == term_alpha_eq(*a, *b, pair_views(env@)),
    decreases *a,
{
    match (a, b) {
        (Term::Atomic(x), Term::Atomic(y)) => names_match_exec(x, y, env),
        (Term::FuncApp(f, xs), Term::FuncApp(g, ys)) => {
            if !(*f == *g) || xs.len() != ys.len() {
                return false;
            }
            let mut i: usize = 0;
            while i < xs.len()
                invariant
                    i <= xs@.len(),
                    xs@.len() == ys@.len(),
                    forall|j: int|
                        0 <= j < i ==> term_alpha_eq(#[trigger] xs@[j], ys@[j], pair_views(env@)),
                decreases xs@.len() - i,
            {
                if !term_alpha_eq_exec(&xs[i], &ys[i], env) {
                    return false;
                }
                i = i + 1;
            }
            true
        },
        _ => false,
    }
}

/// Decides alpha-equivalence of formulas under the binder environment `env`.
#[verifier::loop_isolation(false)]
fn wff_alpha_eq_exec(a: &Wff, b: &Wff, env: &mut Vec<(String, String)>) -> (r: bool)
    ensures
        final(env)@ == old(env)@,
        r == wff_alpha_eq(*a, *b, pair_views(old(env)@)),
    decreases *a,
{
    match (a, b) {
        (Wff::And(xs), Wff::And(ys)) => wff_alpha_list_exec(xs, ys, env),
        (Wff::Or(xs), Wff::Or(ys)) => wff_alpha_list_exec(xs, ys, env),
        (Wff::Implies(a1, a2), Wff::Implies(b1, b2)) => wff_alpha_eq_exec(a1, b1, env)
            && wff_alpha_eq_exec(a2, b2, env),
        (Wff::Bicond(a1, a2), Wff::Bicond(b1, b2)) => wff_alpha_eq_exec(a1, b1, env)
            && wff_alpha_eq_exec(a2, b2, env),
        (Wff::Not(a1), Wff::Not(b1)) => wff_alpha_eq_exec(a1, b1, env),
        (Wff::Bottom, Wff::Bottom) => true,
        (Wff::Forall(x, a1), Wff::Forall(y, b1)) => {
            let ghost e0 = env@;
            env.push((x.clone(), y.clone()));
            proof {
                assert(pair_views(env@) =~= pair_views(e0).push((x@, y@)));
            }
            let r = wff_alpha_eq_exec(a1, b1, env);
            let _ = env.pop();
            proof {
                assert(env@ =~= e0);
            }
            r
        },
        (Wff::Exists(x, a1), Wff::Exists(y, b1)) => {
            let ghost e0 = env@;
            env.push((x.clone(), y.clone()));
            proof {
                assert(pair_views(env@) =~= pair_views(e0).push((x@, y@)));
            }
            let r = wff_alpha_eq_exec(a1, b1, env);
            let _ = env.pop();
            proof {
                assert(env@ =~= e0);
            }
            r
        },
        (Wff::Atomic(x), Wff::Atomic(y)) => *x == *y,
        (Wff::PredApp(f, xs), Wff::PredApp(g, ys)) => {
            if !(*f == *g) || xs.len() != ys.len() {
                return false;
            }
            let mut i: usize = 0;
            while i < xs.len()
                invariant
                    i <= xs@.len(),
                    xs@.len() == ys@.len(),
                    forall|j: int|
                        0 <= j < i ==> term_alpha_eq(#[trigger] xs@[j], ys@[j], pair_views(env@)),
                decreases xs@.len() - i,
            {
                if !term_alpha_eq_exec(&xs[i], &ys[i], env) {
                    return false;
                }
                i = i + 1;
            }
            true
        },
        (Wff::Equals(x1, x2), Wff::Equals(y1, y2)) => term_alpha_eq_exec(x1, y1, env)
            && term_alpha_eq_exec(x2, y2, env),
        _ => false,
    }
}

/// Decides elementwise alpha-equivalence of two formula lists.
#[verifier::loop_isolation(false)]
fn wff_alpha_list_exec(xs: &Vec<Wff>, ys: &Vec<Wff>, env: &mut Vec<(String, String)>) -> (r: bool)
    ensures
        final(env)@ == old(env)@,
        r == (xs@.len() == ys@.len() && (forall|i: int|
            0 <= i < xs@.len() ==> wff_alpha_eq(#[trigger] xs@[i], ys@[i], pair_views(old(env)@)))),
    decreases *xs,
{
    if xs.len() != ys.len() {
        return false;
    }
    let ghost e0 = env@;
    let mut i: usize = 0;
    while i < xs.len()
        invariant
            i <= xs@.len(),
            xs@.len() == ys@.len(),
            env@ == e0,
            forall|j: int|
                0 <= j < i ==> wff_alpha_eq(#[trigger] xs@[j], ys@[j], pair_views(e0)),
        decreases xs@.len() - i,
    {
        if !wff_alpha_eq_exec(&xs[i], &ys[i], env) {
            return false;
        }
        i = i + 1;
    }
    true
}

/// `alpha_equiv`: structural equality of two formulas up to consistent
/// renaming of bound variables.
pub fn alpha_equiv(f1: &Wff, f2: &Wff) -> (r: bool)
    ensures
        r == alpha_equiv_spec(*f1, *f2),
{
    let mut env: Vec<(String, String)> = Vec::new();
    proof {
        assert(pair_views(env@) =~= Seq::<(Seq<char>, Seq<char>)>::empty());
    }
    wff_alpha_eq_exec(f1, f2, &mut env)
}

/// Decides whether any name of `t` is one of the binder names in `bound`.
#[verifier::loop_isolation(false)]
fn term_avoids_exec(t: &Term, bound: &Vec<String>) -> (r: bool)
    ensures
        r == term_avoids(*t, name_views(bound@)),
{
    let mut i: usize = 0;
    while i < bound.len()
        invariant
            i <= bound@.len(),
            forall|j: int| 0 <= j < i ==> !term_has_name(*t, #[trigger] name_views(bound@)[j]),
        decreases bound@.len() - i,
    {
        if term_has_name_exec(t, &bound[i]) {
            proof {
                assert(name_views(bound@)[i as int] == bound@[i as int]@);
            }
            return false;
        }
        proof {
            assert(name_views(bound@)[i as int] == bound@[i as int]@);
        }
        i = i + 1;
    }
    true
}

/// Decides whether `x` is one of the binder names in `bound`.
#[verifier::loop_isolation(false)]
fn bound_contains_exec(bound: &Vec<String>, x: &String) -> (r: bool)
    ensures
        r == name_views(bound@).contains(x@),
{
    let mut i: usize = 0;
    while i < bound.len()
        invariant
            i <= bound@.len(),
            forall|j: int| 0 <= j < i ==> #[trigger] name_views(bound@)[j] != x@,
        decreases bound@.len() - i,
    {
        if bound[i] == *x {
            proof {
                assert(name_views(bound@)[i as int] == x@);
            }
            return true;
        }
        proof {
            assert(name_views(bound@)[i as int] == bound@[i as int]@);
        }
        i = i + 1;
    }
    false
}

/// Decides the term-level replacement match.
#[verifier::loop_isolation(false)]
fn mar_term_exec(p: &Term, a: &Term, rep: &Term, rpl: &Term, bound: &Vec<String>) -> (r: bool)
    ensures
        r == mar_term(*p, *a, *rep, *rpl, name_views(bound@)),
    decreases *p,
{
    if term_eq_exec(p, rep) && term_eq_exec(a, rpl) && term_avoids_exec(rep, bound)
        && term_avoids_exec(rpl, bound) {
        return true;
    }
    match (p, a) {
        (Term::Atomic(x), Term::Atomic(y)) => *x == *y,
        (Term::FuncApp(f, xs), Term::FuncApp(g, ys)) => {
            if !(*f == *g) || xs.len() != ys.len() {
                return false;
            }
            let mut i: usize = 0;
            while i < xs.len()
                invariant
                    i <= xs@.len(),
                    xs@.len() == ys@.len(),
                    forall|j: int|
                        0 <= j < i ==> mar_term(
                            #[trigger] xs@[j],
                            ys@[j],
                            *rep,
                            *rpl,
                            name_views(bound@),
                        ),
                decreases xs@.len() - i,
            {
                if !mar_term_exec(&xs[i], &ys[i], rep, rpl, bound) {
                    return false;
                }
                i = i + 1;
            }
            true
        },
        _ => false,
    }
}

/// Decides the formula-level replacement match.
#[verifier::loop_isolation(false)]
fn mar_wff_exec(p: &Wff, a: &Wff, rep: &Term, rpl: &Term, bound: &mut Vec<String>) -> (r: bool)
    ensures
        final(bound)@ == old(bound)@,
        r == mar_wff(*p, *a, *rep, *rpl, name_views(old(bound)@)),
    decreases *p,
{
    match (p, a) {
        (Wff::And(xs), Wff::And(ys)) => mar_wff_list_exec(xs, ys, rep, rpl, bound),
        (Wff::Or(xs), Wff::Or(ys)) => mar_wff_list_exec(xs, ys, rep, rpl, bound),
        (Wff::Implies(a1, a2), Wff::Implies(b1, b2)) => mar_wff_exec(a1, b1, rep, rpl, bound)
            && mar_wff_exec(a2, b2, rep, rpl, bound),
        (Wff::Bicond(a1, a2), Wff::Bicond(b1, b2)) => mar_wff_exec(a1, b1, rep, rpl, bound)
            && mar_wff_exec(a2, b2, rep, rpl, bound),
        (Wff::Not(a1), Wff::Not(b1)) => mar_wff_exec(a1, b1, rep, rpl, bound),
        (Wff::Bottom, Wff::Bottom) => true,
        (Wff::Forall(x, a1), Wff::Forall(y, b1)) => {
            if !(*x == *y) {
                return false;
            }
            let ghost e0 = bound@;
            bound.push(x.clone());
            proof {
                assert(name_views(bound@) =~= name_views(e0).push(x@));
            }
            let r = mar_wff_exec(a1, b1, rep, rpl, bound);
            let _ = bound.pop();
            proof {
                assert(bound@ =~= e0);
            }
            r
        },
        (Wff::Exists(x, a1), Wff::Exists(y, b1)) => {
            if !(*x == *y) {
                return false;
            }
            let ghost e0 = bound@;
            bound.push(x.clone());
            proof {
                assert(name_views(bound@) =~= name_views(e0).push(x@));
            }
            let r = mar_wff_exec(a1, b1, rep, rpl, bound);
            let _ = bound.pop();
            proof {
                assert(bound@ =~= e0);
            }
            r
        },
        (Wff::Atomic(x), Wff::Atomic(y)) => *x == *y,
        (Wff::PredApp(f, xs), Wff::PredApp(g, ys)) => {
            if !(*f == *g) || xs.len() != ys.len() {
                return false;
            }
            let mut i: usize = 0;
            while i < xs.len()
                invariant
                    i <= xs@.len(),
                    xs@.len() == ys@.len(),
                    bound@ == old(bound)@,
                    forall|j: int|
                        0 <= j < i ==> mar_term(
                            #[trigger] xs@[j],
                            ys@[j],
                            *rep,
                            *rpl,
                            name_views(bound@),
                        ),
                decreases xs@.len() - i,
            {
                if !mar_term_exec(&xs[i], &ys[i], rep, rpl, bound) {
                    return false;
                }
                i = i + 1;
            }
            true
        },
        (Wff::Equals(x1, x2), Wff::Equals(y1, y2)) => mar_term_exec(x1, y1, rep, rpl, bound)
            && mar_term_exec(x2, y2, rep, rpl, bound),
        _ => false,
    }
}

/// Decides the replacement match elementwise over two formula lists.
#[verifier::loop_isolation(false)]
fn mar_wff_list_exec(
    xs: &Vec<Wff>,
    ys: &Vec<Wff>,
    rep: &Term,
    rpl: &Term,
    bound: &mut Vec<String>,
) -> (r: bool)
    ensures
        final(bound)@ == old(bound)@,
        r == (xs@.len() == ys@.len() && (forall|i: int|
            0 <= i < xs@.len() ==> mar_wff(
                #[trigger] xs@[i],
                ys@[i],
                *rep,
                *rpl,
                name_views(old(bound)@),
            ))),
    decreases *xs,
{
    if xs.len() != ys.len() {
        return false;
    }
    let mut i: usize = 0;
    while i < xs.len()
        invariant
            i <= xs@.len(),
            xs@.len() == ys@.len(),
            bound@ == old(bound)@,
            forall|j: int|
                0 <= j < i ==> mar_wff(#[trigger] xs@[j], ys@[j], *rep, *rpl, name_views(bound@)),
        decreases xs@.len() - i,
    {
        if !mar_wff_exec(&xs[i], &ys[i], rep, rpl, bound) {
            return false;
        }
        i = i + 1;
    }
    true
}

/// `matches_after_replacing`: whether `actual` can be obtained from
/// `pattern` by replacing zero or more free occurrences of `replaced` with
/// `replacement`.
pub fn matches_after_replacing(
    pattern: &Wff,
    actual: &Wff,
    replaced: &Term,
    replacement: &Term,
) -> (r: bool)
    ensures
        r == mar_wff(*pattern, *actual, *replaced, *replacement, Seq::empty()),
{
    let mut bound: Vec<String> = Vec::new();
    proof {
        assert(name_views(bound@) =~= Seq::<Seq<char>>::empty());
    }
    mar_wff_exec(pattern, actual, replaced, replacement, &mut bound)
}

/// Decides the term-level full substitution match against a known term `t`.
#[verifier::loop_isolation(false)]
fn sa_term_exec(p: &Term, a: &Term, x: &String, t: &Term, bound: &Vec<String>) -> (r: bool)
    ensures
        r == sa_term(*p, *a, x@, *t, name_views(bound@)),
    decreases *p,
{
    match p {
        Term::Atomic(n) => {
            if *n == *x && !bound_contains_exec(bound, x) {
                term_eq_exec(a, t) && term_avoids_exec(t, bound)
            } else {
                term_eq_exec(a, p)
            }
        },
        Term::FuncApp(f, xs) => {
            match a {
                Term::FuncApp(g, ys) => {
                    if !(*f == *g) || xs.len() != ys.len() {
                        return false;
                    }
                    let mut i: usize = 0;
                    while i < xs.len()
                        invariant
                            i <= xs@.len(),
                            xs@.len() == ys@.len(),
                            forall|j: int|
                                0 <= j < i ==> sa_term(
                                    #[trigger] xs@[j],
                                    ys@[j],
                                    x@,
                                    *t,
                                    name_views(bound@),
                                ),
                        decreases xs@.len() - i,
                    {
                        if !sa_term_exec(&xs[i], &ys[i], x, t, bound) {
                            return false;
                        }
                        i = i + 1;
                    }
                    true
                },
                _ => false,
            }
        },
    }
}

/// Decides the formula-level full substitution match against a known term.
#[verifier::loop_isolation(false)]
fn sa_wff_exec(p: &Wff, a: &Wff, x: &String, t: &Term, bound: &mut Vec<String>) -> (r: bool)
    ensures
        final(bound)@ == old(bound)@,
        r == sa_wff(*p, *a, x@, *t, name_views(old(bound)@)),
    decreases *p,
{
    match (p, a) {
        (Wff::And(xs), Wff::And(ys)) => sa_wff_list_exec(xs, ys, x, t, bound),
        (Wff::Or(xs), Wff::Or(ys)) => sa_wff_list_exec(xs, ys, x, t, bound),
        (Wff::Implies(a1, a2), Wff::Implies(b1, b2)) => sa_wff_exec(a1, b1, x, t, bound)
            && sa_wff_exec(a2, b2, x, t, bound),
        (Wff::Bicond(a1, a2), Wff::Bicond(b1, b2)) => sa_wff_exec(a1, b1, x, t, bound)
            && sa_wff_exec(a2, b2, x, t, bound),
        (Wff::Not(a1), Wff::Not(b1)) => sa_wff_exec(a1, b1, x, t, bound),
        (Wff::Bottom, Wff::Bottom) => true,
        (Wff::Forall(v, a1), Wff::Forall(w, b1)) => {
            if !(*v == *w) {
                return false;
            }
            let ghost e0 = bound@;
            bound.push(v.clone());
            proof {
                assert(name_views(bound@) =~= name_views(e0).push(v@));
            }
            let r = sa_wff_exec(a1, b1, x, t, bound);
            let _ = bound.pop();
            proof {
                assert(bound@ =~= e0);
            }
            r
        },
        (Wff::Exists(v, a1), Wff::Exists(w, b1)) => {
            if !(*v == *w) {
                return false;
            }
            let ghost e0 = bound@;
            bound.push(v.clone());
            proof {
                assert(name_views(bound@) =~= name_views(e0).push(v@));
            }
            let r = sa_wff_exec(a1, b1, x, t, bound);
            let _ = bound.pop();
            proof {
                assert(bound@ =~= e0);
            }
            r
        },
        (Wff::Atomic(n1), Wff::Atomic(n2)) => *n1 == *n2,
        (Wff::PredApp(f, xs), Wff::PredApp(g, ys)) => {
            if !(*f == *g) || xs.len() != ys.len() {
                return false;
            }
            let mut i: usize = 0;
            while i < xs.len()
                invariant
                    i <= xs@.len(),
                    xs@.len() == ys@.len(),
                    bound@ == old(bound)@,
                    forall|j: int|
                        0 <= j < i ==> sa_term(#[trigger] xs@[j], ys@[j], x@, *t, name_views(bound@)),
                decreases xs@.len() - i,
            {
                if !sa_term_exec(&xs[i], &ys[i], x, t, bound) {
                    return false;
                }
                i = i + 1;
            }
            true
        },
        (Wff::Equals(x1, x2), Wff::Equals(y1, y2)) => sa_term_exec(x1, y1, x, t, bound)
            && sa_term_exec(x2, y2, x, t, bound),
        _ => false,
    }
}

/// Decides the full substitution match elementwise over two formula lists.
#[verifier::loop_isolation(false)]
fn sa_wff_list_exec(
    xs: &Vec<Wff>,
    ys: &Vec<Wff>,
    x: &String,
    t: &Term,
    bound: &mut Vec<String>,
) -> (r: bool)
    ensures
        final(bound)@ == old(bound)@,
        r == (xs@.len() == ys@.len() && (forall|i: int|
            0 <= i < xs@.len() ==> sa_wff(#[trigger] xs@[i], ys@[i], x@, *t, name_views(
                old(bound)@,
            )))),
    decreases *xs,
{
    if xs.len() != ys.len() {
        return false;
    }
    let mut i: usize = 0;
    while i < xs.len()
        invariant
            i <= xs@.len(),
            xs@.len() == ys@.len(),
            bound@ == old(bound)@,
            forall|j: int|
                0 <= j < i ==> sa_wff(#[trigger] xs@[j], ys@[j], x@, *t, name_views(bound@)),
        decreases xs@.len() - i,
    {
        if !sa_wff_exec(&xs[i], &ys[i], x, t, bound) {
            return false;
        }
        i = i + 1;
    }
    true
}

/// `a` is `p` with every free occurrence of the variable `x` replaced by the
/// term `t`.
pub fn substitutes_to(p: &Wff, a: &Wff, x: &String, t: &Term) -> (r: bool)
    ensures
        r == sa_wff(*p, *a, x@, *t, Seq::empty()),
{
    let mut bound: Vec<String> = Vec::new();
    proof {
        assert(name_views(bound@) =~= Seq::<Seq<char>>::empty());
    }
    sa_wff_exec(p, a, x, t, &mut bound)
}

/// The witness carried by the matcher, as a mathematical value.
pub open spec fn opt_term_val(c: Option<&Term>) -> Option<Term> {
    match c {
        Option::None => None,
        Option::Some(t) => Some(*t),
    }
}

/// The matcher's result, as a mathematical value.
pub open spec fn opt2_term_val(c: Option<Option<&Term>>) -> Option<Option<Term>> {
    match c {
        Option::None => None,
        Option::Some(c2) => Some(opt_term_val(c2)),
    }
}

/// Joins a newly found witness with the one collected so far.
fn cand_join_exec<'a>(acc: Option<&'a Term>, t: &'a Term) -> (r: Option<Option<&'a Term>>)
    ensures
        opt2_term_val(r) == cand_join(opt_term_val(acc), *t),
{
    match acc {
        None => Some(Some(t)),
        Some(c) => if term_eq_exec(c, t) {
            Some(Some(c))
        } else {
            None
        },
    }
}

/// Runs the term-level witness-inferring matcher.
#[verifier::loop_isolation(false)]
fn sa_infer_term_exec<'a>(
    p: &Term,
    a: &'a Term,
    x: &String,
    bound: &Vec<String>,
    acc: Option<&'a Term>,
) -> (r: Option<Option<&'a Term>>)
    ensures
        opt2_term_val(r) == sa_infer_term(*p, *a, x@, name_views(bound@), opt_term_val(acc)),
    decreases *p,
{
    match p {
        Term::Atomic(n) => {
            if *n == *x && !bound_contains_exec(bound, x) {
                if term_avoids_exec(a, bound) {
                    cand_join_exec(acc, a)
                } else {
                    None
                }
            } else {
                if term_eq_exec(a, p) {
                    Some(acc)
                } else {
                    None
                }
            }
        },
        Term::FuncApp(f, xs) => {
            match a {
                Term::FuncApp(g, ys) => {
                    if !(*f == *g) || xs.len() != ys.len() {
                        return None;
                    }
                    let mut cur: Option<&'a Term> = acc;
                    let mut i: usize = 0;
                    while i < xs.len()
                        invariant
                            i <= xs@.len(),
                            xs@.len() == ys@.len(),
                            sa_infer_terms(*xs, *ys, 0, x@, name_views(bound@), opt_term_val(acc))
                                == sa_infer_terms(
                                *xs,
                                *ys,
                                i as int,
                                x@,
                                name_views(bound@),
                                opt_term_val(cur),
                            ),
                        decreases xs@.len() - i,
                    {
                        match sa_infer_term_exec(&xs[i], &ys[i], x, bound, cur) {
                            None => {
                                return None;
                            },
                            Some(c2) => {
                                cur = c2;
                            },
                        }
                        i = i + 1;
                    }
                    Some(cur)
                },
                _ => None,
            }
        },
    }
}

/// Runs the formula-level witness-inferring matcher.
#[verifier::loop_isolation(false)]
fn sa_infer_wff_exec<'a>(
    p: &Wff,
    a: &'a Wff,
    x: &String,
    bound: &mut Vec<String>,
    acc: Option<&'a Term>,
) -> (r: Option<Option<&'a Term>>)
    ensures
        final(bound)@ == old(bound)@,
        opt2_term_val(r) == sa_infer_wff(*p, *a, x@, name_views(old(bound)@), opt_term_val(acc)),
    decreases *p,
{
    match (p, a) {
        (Wff::And(xs), Wff::And(ys)) => {
            if xs.len() != ys.len() {
                return None;
            }
            sa_infer_wff_list_exec(xs, ys, x, bound, acc)
        },
        (Wff::Or(xs), Wff::Or(ys)) => {
            if xs.len() != ys.len() {
                return None;
            }
            sa_infer_wff_list_exec(xs, ys, x, bound, acc)
        },
        (Wff::Implies(a1, a2), Wff::Implies(b1, b2)) => {
            match sa_infer_wff_exec(a1, b1, x, bound, acc) {
                None => None,
                Some(c2) => sa_infer_wff_exec(a2, b2, x, bound, c2),
            }
        },
        (Wff::Bicond(a1, a2), Wff::Bicond(b1, b2)) => {
            match sa_infer_wff_exec(a1, b1, x, bound, acc) {
                None => None,
                Some(c2) => sa_infer_wff_exec(a2, b2, x, bound, c2),
            }
        },
        (Wff::Not(a1), Wff::Not(b1)) => sa_infer_wff_exec(a1, b1, x, bound, acc),
        (Wff::Bottom, Wff::Bottom) => Some(acc),
        (Wff::Forall(v, a1), Wff::Forall(w, b1)) => {
            if !(*v == *w) {
                return None;
            }
            let ghost e0 = bound@;
            bound.push(v.clone());
            proof {
                assert(name_views(bound@) =~= name_views(e0).push(v@));
            }
            let r = sa_infer_wff_exec(a1, b1, x, bound, acc);
            let _ = bound.pop();
            proof {
                assert(bound@ =~= e0);
            }
            r
        },
        (Wff::Exists(v, a1), Wff::Exists(w, b1)) => {
            if !(*v == *w) {
                return None;
            }
            let ghost e0 = bound@;
            bound.push(v.clone());
            proof {
                assert(name_views(bound@) =~= name_views(e0).push(v@));
            }
            let r = sa_infer_wff_exec(a1, b1, x, bound, acc);
            let _ = bound.pop();
            proof {
                assert(bound@ =~= e0);
            }
            r
        },
        (Wff::Atomic(n1), Wff::Atomic(n2)) => {
            if *n1 == *n2 {
                Some(acc)
            } else {
                None
            }
        },
        (Wff::PredApp(f, xs), Wff::PredApp(g, ys)) => {
            if !(*f == *g) || xs.len() != ys.len() {
                return None;
            }
            let mut cur: Option<&'a Term> = acc;
            let mut i: usize = 0;
            while i < xs.len()
                invariant
                    i <= xs@.len(),
                    xs@.len() == ys@.len(),
                    sa_infer_terms(*xs, *ys, 0, x@, name_views(bound@), opt_term_val(acc))
                        == sa_infer_terms(
                        *xs,
                        *ys,
                        i as int,
                        x@,
                        name_views(bound@),
                        opt_term_val(cur),
                    ),
                decreases xs@.len() - i,
            {
                match sa_infer_term_exec(&xs[i], &ys[i], x, bound, cur) {
                    None => {
                        return None;
                    },
                    Some(c2) => {
                        cur = c2;
                    },
                }
                i = i + 1;
            }
            Some(cur)
        },
        (Wff::Equals(x1, x2), Wff::Equals(y1, y2)) => {
            match sa_infer_term_exec(x1, y1, x, bound, acc) {
                None => None,
                Some(c2) => sa_infer_term_exec(x2, y2, x, bound, c2),
            }
        },
        _ => None,
    }
}

/// Runs the witness-inferring matcher over two formula lists.
#[verifier::loop_isolation(false)]
fn sa_infer_wff_list_exec<'a>(
    xs: &Vec<Wff>,
    ys: &'a Vec<Wff>,
    x: &String,
    bound: &mut Vec<String>,
    acc: Option<&'a Term>,
) -> (r: Option<Option<&'a Term>>)
    requires
        xs@.len() == ys@.len(),
    ensures
        final(bound)@ == old(bound)@,
        opt2_term_val(r) == sa_infer_wffs(*xs, *ys, 0, x@, name_views(old(bound)@), opt_term_val(
            acc,
        )),
    decreases *xs,
{
    let mut cur: Option<&'a Term> = acc;
    let mut i: usize = 0;
    while i < xs.len()
        invariant
            i <= xs@.len(),
            bound@ == old(bound)@,
            sa_infer_wffs(*xs, *ys, 0, x@, name_views(bound@), opt_term_val(acc))
                == sa_infer_wffs(*xs, *ys, i as int, x@, name_views(bound@), opt_term_val(cur)),
        decreases xs@.len() - i,
    {
        match sa_infer_wff_exec(&xs[i], &ys[i], x, bound, cur) {
            None => {
                return None;
            },
            Some(c2) => {
                cur = c2;
            },
        }
        i = i + 1;
    }
    Some(cur)
}

pub proof fn lemma_term_eq_refl(t: Term)
    ensures
        term_eq(t, t),
    decreases t,
{
    match t {
        Term::Atomic(_) => {},
        Term::FuncApp(_f, xs) => {
            assert forall|i: int| 0 <= i < xs@.len() implies term_eq(#[trigger] xs@[i], xs@[i]) by {
                lemma_term_eq_refl(xs@[i]);
            }
        },
    }
}

pub proof fn lemma_term_eq_symm(a: Term, b: Term)
    requires
        term_eq(a, b),
    ensures
        term_eq(b, a),
    decreases a,
{
    match (a, b) {
        (Term::FuncApp(f, xs), Term::FuncApp(g, ys)) => {
            assert forall|i: int| 0 <= i < ys@.len() implies term_eq(#[trigger] ys@[i], xs@[i]) by {
                assert(term_eq(xs@[i], ys@[i]));
                lemma_term_eq_symm(xs@[i], ys@[i]);
            }
        },
        _ => {},
    }
}

pub proof fn lemma_term_eq_trans(a: Term, b: Term, c: Term)
    requires
        term_eq(a, b),
        term_eq(b, c),
    ensures
        term_eq(a, c),
    decreases a,
{
    match (a, b) {
        (Term::FuncApp(f, xs), Term::FuncApp(g, ys)) => {
            match c {
                Term::FuncApp(h, zs) => {
                    assert forall|i: int|
                        0 <= i < xs@.len() implies term_eq(#[trigger] xs@[i], zs@[i]) by {
                        assert(term_eq(xs@[i], ys@[i]));
                        assert(term_eq(ys@[i], zs@[i]));
                        lemma_term_eq_trans(xs@[i], ys@[i], zs@[i]);
                    }
                },
                _ => {},
            }
        },
        _ => {},
    }
}

/// Equal terms mention the same names.
pub proof fn lemma_term_eq_has_name(a: Term, b: Term, n: Seq<char>)
    requires
        term_eq(a, b),
    ensures
        term_has_name(a, n) == term_has_name(b, n),
    decreases a,
{
    match (a, b) {
        (Term::FuncApp(f, xs), Term::FuncApp(g, ys)) => {
            assert forall|i: int|
                0 <= i < xs@.len() implies term_has_name(#[trigger] xs@[i], n) == term_has_name(
                ys@[i],
                n,
            ) by {
                assert(term_eq(xs@[i], ys@[i]));
                lemma_term_eq_has_name(xs@[i], ys@[i], n);
            }
            assert(term_has_name(a, n) == term_has_name(b, n)) by {
                if term_has_name(a, n) {
                    let i = choose|i: int|
                        0 <= i < xs@.len() && term_has_name(#[trigger] xs@[i], n);
                    assert(term_has_name(ys@[i], n));
                } else if term_has_name(b, n) {
                    let i = choose|i: int|
                        0 <= i < ys@.len() && term_has_name(#[trigger] ys@[i], n);
                    assert(term_has_name(xs@[i], n));
                }
            }
        },
        _ => {},
    }
}

/// Equal terms avoid the same binder names.
pub proof fn lemma_term_eq_avoids(a: Term, b: Term, bound: Seq<Seq<char>>)
    requires
        term_eq(a, b),
    ensures
        term_avoids(a, bound) == term_avoids(b, bound),
{
    assert forall|i: int|
        0 <= i < bound.len() implies term_has_name(a, #[trigger] bound[i]) == term_has_name(
        b,
        bound[i],
    ) by {
        lemma_term_eq_has_name(a, b, bound[i]);
    }
}

/// Whether `t` agrees with the witness collected so far.
pub open spec fn cand_compat(acc: Option<Term>, t: Term) -> bool {
    match acc {
        Option::None => true,
        Option::Some(c) => term_eq(t, c),
    }
}

/// The tail of the elementwise substitution match over term lists.
pub open spec fn sa_terms_from(
    xs: Vec<Term>,
    ys: Vec<Term>,
    i: int,
    x: Seq<char>,
    t: Term,
    bound: Seq<Seq<char>>,
) -> bool {
    forall|k: int| i <= k < xs@.len() ==> sa_term(#[trigger] xs@[k], ys@[k], x, t, bound)
}

/// The tail of the elementwise substitution match over formula lists.
pub open spec fn sa_wffs_from(
    xs: Vec<Wff>,
    ys: Vec<Wff>,
    i: int,
    x: Seq<char>,
    t: Term,
    bound: Seq<Seq<char>>,
) -> bool {
    forall|k: int| i <= k < xs@.len() ==> sa_wff(#[trigger] xs@[k], ys@[k], x, t, bound)
}

/// What the witness-inferring matcher computes, at term level: a mismatch
/// means no compatible term substitutes, and a collected witness set
/// characterizes exactly the terms that do.
pub proof fn lemma_infer_term_char(
    p: Term,
    a: Term,
    x: Seq<char>,
    bound: Seq<Seq<char>>,
    acc: Option<Term>,
)
    ensures
        match sa_infer_term(p, a, x, bound, acc) {
            Option::None => forall|t: Term|
                !(cand_compat(acc, t) && #[trigger] sa_term(p, a, x, t, bound)),
            Option::Some(acc2) => forall|t: Term|
                #[trigger] cand_compat(acc2, t) == (cand_compat(acc, t) && sa_term(
                    p,
                    a,
                    x,
                    t,
                    bound,
                )),
        },
    decreases p, 0int,
{
    match p {
        Term::Atomic(n) => {
            if n@ == x && !bound.contains(x) {
                if term_avoids(a, bound) {
                    match acc {
                        Option::None => {
                            assert forall|t: Term|
                                #[trigger] cand_compat(Some(a), t) == (cand_compat(acc, t)
                                    && sa_term(p, a, x, t, bound)) by {
                                if cand_compat(Some(a), t) {
                                    lemma_term_eq_symm(t, a);
                                    lemma_term_eq_avoids(t, a, bound);
                                } else if sa_term(p, a, x, t, bound) {
                                    lemma_term_eq_symm(a, t);
                                }
                            }
                        },
                        Option::Some(c) => {
                            if term_eq(c, a) {
                                assert forall|t: Term|
                                    #[trigger] cand_compat(Some(c), t) == (cand_compat(acc, t)
                                        && sa_term(p, a, x, t, bound)) by {
                                    if cand_compat(Some(c), t) {
                                        lemma_term_eq_trans(t, c, a);
                                        lemma_term_eq_symm(t, a);
                                        lemma_term_eq_avoids(t, a, bound);
                                    }
                                }
                            } else {
                                assert forall|t: Term|
                                    !(cand_compat(acc, t) && #[trigger] sa_term(
                                        p,
                                        a,
                                        x,
                                        t,
                                        bound,
                                    )) by {
                                    if cand_compat(acc, t) && sa_term(p, a, x, t, bound) {
                                        lemma_term_eq_symm(a, t);
                                        lemma_term_eq_trans(a, t, c);
                                        lemma_term_eq_symm(a, c);
                                        lemma_term_eq_symm(c, a);
                                        assert(false);
                                    }
                                }
                            }
                        },
                    }
                } else {
                    assert forall|t: Term|
                        !(cand_compat(acc, t) && #[trigger] sa_term(p, a, x, t, bound)) by {
                        if sa_term(p, a, x, t, bound) {
                            lemma_term_eq_avoids(a, t, bound);
                        }
                    }
                }
            } else {
                assert forall|t: Term|
                    sa_term(p, a, x, t, bound) == term_eq(a, p) by {}
            }
        },
        Term::FuncApp(f, xs) => {
            match a {
                Term::FuncApp(g, ys) => {
                    if f@ == g@ && xs@.len() == ys@.len() {
                        lemma_infer_terms_char(xs, ys, 0, x, bound, acc);
                        assert forall|t: Term|
                            #[trigger] sa_term(p, a, x, t, bound) == sa_terms_from(
                                xs,
                                ys,
                                0,
                                x,
                                t,
                                bound,
                            ) by {}
                    }
                },
                _ => {},
            }
        },
    }
}

pub proof fn lemma_infer_terms_char(
    xs: Vec<Term>,
    ys: Vec<Term>,
    i: int,
    x: Seq<char>,
    bound: Seq<Seq<char>>,
    acc: Option<Term>,
)
    requires
        0 <= i <= xs@.len(),
        ys@.len() == xs@.len(),
    ensures
        match sa_infer_terms(xs, ys, i, x, bound, acc) {
            Option::None => forall|t: Term|
                !(cand_compat(acc, t) && #[trigger] sa_terms_from(xs, ys, i, x, t, bound)),
            Option::Some(acc2) => forall|t: Term|
                #[trigger] cand_compat(acc2, t) == (cand_compat(acc, t) && sa_terms_from(
                    xs,
                    ys,
                    i,
                    x,
                    t,
                    bound,
                )),
        },
    decreases xs, xs@.len() - i + 1,
{
    if i >= xs@.len() {
        assert forall|t: Term| sa_terms_from(xs, ys, i, x, t, bound) by {}
    } else {
        lemma_infer_term_char(xs@[i], ys@[i], x, bound, acc);
        assert forall|t: Term|
            #[trigger] sa_terms_from(xs, ys, i, x, t, bound) == (sa_term(
                xs@[i],
                ys@[i],
                x,
                t,
                bound,
            ) && sa_terms_from(xs, ys, i + 1, x, t, bound)) by {
            if sa_term(xs@[i], ys@[i], x, t, bound) && sa_terms_from(xs, ys, i + 1, x, t, bound) {
                assert forall|k: int|
                    i <= k < xs@.len() implies sa_term(#[trigger] xs@[k], ys@[k], x, t, bound) by {
                    if k > i {
                        assert(sa_term(xs@[k], ys@[k], x, t, bound));
                    }
                }
            }
        }
        match sa_infer_term(xs@[i], ys@[i], x, bound, acc) {
            Option::None => {},
            Option::Some(acc1) => {
                lemma_infer_terms_char(xs, ys, i + 1, x, bound, acc1);
            },
        }
    }
}

/// What the witness-inferring matcher computes, at formula level.
pub proof fn lemma_infer_wff_char(
    p: Wff,
    a: Wff,
    x: Seq<char>,
    bound: Seq<Seq<char>>,
    acc: Option<Term>,
)
    ensures
        match sa_infer_wff(p, a, x, bound, acc) {
            Option::None => forall|t: Term|
                !(cand_compat(acc, t) && #[trigger] sa_wff(p, a, x, t, bound)),
            Option::Some(acc2) => forall|t: Term|
                #[trigger] cand_compat(acc2, t) == (cand_compat(acc, t) && sa_wff(
                    p,
                    a,
                    x,
                    t,
                    bound,
                )),
        },
    decreases p, 0int,
{
    match (p, a) {
        (Wff::And(xs), Wff::And(ys)) => {
            if xs@.len() == ys@.len() {
                lemma_infer_wffs_char(xs, ys, 0, x, bound, acc);
                assert forall|t: Term|
                    #[trigger] sa_wff(p, a, x, t, bound) == sa_wffs_from(xs, ys, 0, x, t, bound) by {}
            }
        },
        (Wff::Or(xs), Wff::Or(ys)) => {
            if xs@.len() == ys@.len() {
                lemma_infer_wffs_char(xs, ys, 0, x, bound, acc);
                assert forall|t: Term|
                    #[trigger] sa_wff(p, a, x, t, bound) == sa_wffs_from(xs, ys, 0, x, t, bound) by {}
            }
        },
        (Wff::Implies(a1, a2), Wff::Implies(b1, b2)) => {
            lemma_infer_wff_char(*a1, *b1, x, bound, acc);
            match sa_infer_wff(*a1, *b1, x, bound, acc) {
                Option::None => {
                    assert forall|t: Term|
                        !(cand_compat(acc, t) && #[trigger] sa_wff(p, a, x, t, bound)) by {
                        if cand_compat(acc, t) && sa_wff(p, a, x, t, bound) {
                            assert(sa_wff(*a1, *b1, x, t, bound));
                        }
                    }
                },
                Option::Some(acc1) => {
                    lemma_infer_wff_char(*a2, *b2, x, bound, acc1);
                    match sa_infer_wff(*a2, *b2, x, bound, acc1) {
                        Option::None => {
                            assert forall|t: Term|
                                !(cand_compat(acc, t) && #[trigger] sa_wff(p, a, x, t, bound)) by {
                                if cand_compat(acc, t) && sa_wff(p, a, x, t, bound) {
                                    assert(cand_compat(acc1, t) == (cand_compat(acc, t)
                                        && sa_wff(*a1, *b1, x, t, bound)));
                                    assert(sa_wff(*a2, *b2, x, t, bound));
                                }
                            }
                        },
                        Option::Some(acc2) => {
                            assert forall|t: Term|
                                #[trigger] cand_compat(acc2, t) == (cand_compat(acc, t) && sa_wff(
                                p,
                                a,
                                x,
                                t,
                                bound,
                            )) by {
                                assert(cand_compat(acc1, t) == (cand_compat(acc, t) && sa_wff(
                                    *a1,
                                    *b1,
                                    x,
                                    t,
                                    bound,
                                )));
                                assert(cand_compat(acc2, t) == (cand_compat(acc1, t) && sa_wff(
                                    *a2,
                                    *b2,
                                    x,
                                    t,
                                    bound,
                                )));
                            }
                        },
                    }
                },
            }
        },
        (Wff::Bicond(a1, a2), Wff::Bicond(b1, b2)) => {
            lemma_infer_wff_char(*a1, *b1, x, bound, acc);
            match sa_infer_wff(*a1, *b1, x, bound, acc) {
                Option::None => {
                    assert forall|t: Term|
                        !(cand_compat(acc, t) && #[trigger] sa_wff(p, a, x, t, bound)) by {
                        if cand_compat(acc, t) && sa_wff(p, a, x, t, bound) {
                            assert(sa_wff(*a1, *b1, x, t, bound));
                        }
                    }
                },
                Option::Some(acc1) => {
                    lemma_infer_wff_char(*a2, *b2, x, bound, acc1);
                    match sa_infer_wff(*a2, *b2, x, bound, acc1) {
                        Option::None => {
                            assert forall|t: Term|
                                !(cand_compat(acc, t) && #[trigger] sa_wff(p, a, x, t, bound)) by {
                                if cand_compat(acc, t) && sa_wff(p, a, x, t, bound) {
                                    assert(cand_compat(acc1, t) == (cand_compat(acc, t)
                                        && sa_wff(*a1, *b1, x, t, bound)));
                                    assert(sa_wff(*a2, *b2, x, t, bound));
                                }
                            }
                        },
                        Option::Some(acc2) => {
                            assert forall|t: Term|
                                #[trigger] cand_compat(acc2, t) == (cand_compat(acc, t) && sa_wff(
                                p,
                                a,
                                x,
                                t,
                                bound,
                            )) by {
                                assert(cand_compat(acc1, t) == (cand_compat(acc, t) && sa_wff(
                                    *a1,
                                    *b1,
                                    x,
                                    t,
                                    bound,
                                )));
                                assert(cand_compat(acc2, t) == (cand_compat(acc1, t) && sa_wff(
                                    *a2,
                                    *b2,
                                    x,
                                    t,
                                    bound,
                                )));
                            }
                        },
                    }
                },
            }
        },
        (Wff::Not(a1), Wff::Not(b1)) => {
            lemma_infer_wff_char(*a1, *b1, x, bound, acc);
            match sa_infer_wff(*a1, *b1, x, bound, acc) {
                Option::None => {
                    assert forall|t: Term|
                        !(cand_compat(acc, t) && #[trigger] sa_wff(p, a, x, t, bound)) by {
                        if cand_compat(acc, t) && sa_wff(p, a, x, t, bound) {
                            assert(sa_wff(*a1, *b1, x, t, bound));
                        }
                    }
                },
                Option::Some(acc2) => {
                    assert forall|t: Term|
                        #[trigger] cand_compat(acc2, t) == (cand_compat(acc, t) && sa_wff(
                        p,
                        a,
                        x,
                        t,
                        bound,
                    )) by {
                        assert(cand_compat(acc2, t) == (cand_compat(acc, t) && sa_wff(
                            *a1,
                            *b1,
                            x,
                            t,
                            bound,
                        )));
                    }
                },
            }
        },
        (Wff::Forall(v, a1), Wff::Forall(w, b1)) => {
            if v@ == w@ {
                lemma_infer_wff_char(*a1, *b1, x, bound.push(v@), acc);
                match sa_infer_wff(*a1, *b1, x, bound.push(v@), acc) {
                    Option::None => {
                        assert forall|t: Term|
                            !(cand_compat(acc, t) && #[trigger] sa_wff(p, a, x, t, bound)) by {
                            if cand_compat(acc, t) && sa_wff(p, a, x, t, bound) {
                                assert(sa_wff(*a1, *b1, x, t, bound.push(v@)));
                            }
                        }
                    },
                    Option::Some(acc2) => {
                        assert forall|t: Term|
                            #[trigger] cand_compat(acc2, t) == (cand_compat(acc, t) && sa_wff(
                            p,
                            a,
                            x,
                            t,
                            bound,
                        )) by {
                            assert(cand_compat(acc2, t) == (cand_compat(acc, t) && sa_wff(
                                *a1,
                                *b1,
                                x,
                                t,
                                bound.push(v@),
                            )));
                        }
                    },
                }
            }
        },
        (Wff::Exists(v, a1), Wff::Exists(w, b1)) => {
            if v@ == w@ {
                lemma_infer_wff_char(*a1, *b1, x, bound.push(v@), acc);
                match sa_infer_wff(*a1, *b1, x, bound.push(v@), acc) {
                    Option::None => {
                        assert forall|t: Term|
                            !(cand_compat(acc, t) && #[trigger] sa_wff(p, a, x, t, bound)) by {
                            if cand_compat(acc, t) && sa_wff(p, a, x, t, bound) {
                                assert(sa_wff(*a1, *b1, x, t, bound.push(v@)));
                            }
                        }
                    },
                    Option::Some(acc2) => {
                        assert forall|t: Term|
                            #[trigger] cand_compat(acc2, t) == (cand_compat(acc, t) && sa_wff(
                            p,
                            a,
                            x,
                            t,
                            bound,
                        )) by {
                            assert(cand_compat(acc2, t) == (cand_compat(acc, t) && sa_wff(
                                *a1,
                                *b1,
                                x,
                                t,
                                bound.push(v@),
                            )));
                        }
                    },
                }
            }
        },
        (Wff::PredApp(f, xs), Wff::PredApp(g, ys)) => {
            if f@ == g@ && xs@.len() == ys@.len() {
                lemma_infer_terms_char(xs, ys, 0, x, bound, acc);
                assert forall|t: Term|
                    #[trigger] sa_wff(p, a, x, t, bound) == sa_terms_from(xs, ys, 0, x, t, bound) by {}
            }
        },
        (Wff::Equals(x1, x2), Wff::Equals(y1, y2)) => {
            lemma_infer_term_char(x1, y1, x, bound, acc);
            match sa_infer_term(x1, y1, x, bound, acc) {
                Option::None => {
                    assert forall|t: Term|
                        !(cand_compat(acc, t) && #[trigger] sa_wff(p, a, x, t, bound)) by {
                        if cand_compat(acc, t) && sa_wff(p, a, x, t, bound) {
                            assert(sa_term(x1, y1, x, t, bound));
                        }
                    }
                },
                Option::Some(acc1) => {
                    lemma_infer_term_char(x2, y2, x, bound, acc1);
                    match sa_infer_term(x2, y2, x, bound, acc1) {
                        Option::None => {
                            assert forall|t: Term|
                                !(cand_compat(acc, t) && #[trigger] sa_wff(p, a, x, t, bound)) by {
                                if cand_compat(acc, t) && sa_wff(p, a, x, t, bound) {
                                    assert(cand_compat(acc1, t) == (cand_compat(acc, t) && sa_term(
                                        x1,
                                        y1,
                                        x,
                                        t,
                                        bound,
                                    )));
                                    assert(sa_term(x2, y2, x, t, bound));
                                }
                            }
                        },
                        Option::Some(acc2) => {
                            assert forall|t: Term|
                                #[trigger] cand_compat(acc2, t) == (cand_compat(acc, t) && sa_wff(
                                p,
                                a,
                                x,
                                t,
                                bound,
                            )) by {
                                assert(cand_compat(acc1, t) == (cand_compat(acc, t) && sa_term(
                                    x1,
                                    y1,
                                    x,
                                    t,
                                    bound,
                                )));
                                assert(cand_compat(acc2, t) == (cand_compat(acc1, t) && sa_term(
                                    x2,
                                    y2,
                                    x,
                                    t,
                                    bound,
                                )));
                            }
                        },
                    }
                },
            }
        },
        _ => {
        },
    }
}

pub proof fn lemma_infer_wffs_char(
    xs: Vec<Wff>,
    ys: Vec<Wff>,
    i: int,
    x: Seq<char>,
    bound: Seq<Seq<char>>,
    acc: Option<Term>,
)
    requires
        0 <= i <= xs@.len(),
        ys@.len() == xs@.len(),
    ensures
        match sa_infer_wffs(xs, ys, i, x, bound, acc) {
            Option::None => forall|t: Term|
                !(cand_compat(acc, t) && #[trigger] sa_wffs_from(xs, ys, i, x, t, bound)),
            Option::Some(acc2) => forall|t: Term|
                #[trigger] cand_compat(acc2, t) == (cand_compat(acc, t) && sa_wffs_from(
                    xs,
                    ys,
                    i,
                    x,
                    t,
                    bound,
                )),
        },
    decreases xs, xs@.len() - i + 1,
{
    if i >= xs@.len() {
        assert forall|t: Term| sa_wffs_from(xs, ys, i, x, t, bound) by {}
    } else {
        lemma_infer_wff_char(xs@[i], ys@[i], x, bound, acc);
        assert forall|t: Term|
            #[trigger] sa_wffs_from(xs, ys, i, x, t, bound) == (sa_wff(
                xs@[i],
                ys@[i],
                x,
                t,
                bound,
            ) && sa_wffs_from(xs, ys, i + 1, x, t, bound)) by {
            if sa_wff(xs@[i], ys@[i], x, t, bound) && sa_wffs_from(xs, ys, i + 1, x, t, bound) {
                assert forall|k: int|
                    i <= k < xs@.len() implies sa_wff(#[trigger] xs@[k], ys@[k], x, t, bound) by {
                    if k > i {
                        assert(sa_wff(xs@[k], ys@[k], x, t, bound));
                    }
                }
            }
        }
        match sa_infer_wff(xs@[i], ys@[i], x, bound, acc) {
            Option::None => {},
            Option::Some(acc1) => {
                lemma_infer_wffs_char(xs, ys, i + 1, x, bound, acc1);
            },
        }
    }
}

/// Substitution correctness: the matcher behind a quantifier rule accepts
/// `a` exactly when `a` is `p` with a single term `t` substituted for every
/// free occurrence of `x` (under the strict no-capture reading of
/// [`sa_wff`]), and rejects everything else.
pub proof fn lemma_subst_match_characterization(p: Wff, a: Wff, x: Seq<char>)
    ensures
        subst_match(p, a, x) == (exists|t: Term| sa_wff(p, a, x, t, Seq::empty())),
{
    lemma_infer_wff_char(p, a, x, Seq::empty(), None);
    match sa_infer_wff(p, a, x, Seq::empty(), None) {
        Option::None => {
            assert forall|t: Term| !sa_wff(p, a, x, t, Seq::empty()) by {
                assert(!(cand_compat(None, t) && sa_wff(p, a, x, t, Seq::empty())));
            }
        },
        Option::Some(acc2) => {
            match acc2 {
                Option::None => {
                    let w = Term::Atomic(vstd::pervasive::arbitrary());
                    assert(cand_compat(Option::<Term>::None, w));
                    assert(sa_wff(p, a, x, w, Seq::empty()));
                },
                Option::Some(tc) => {
                    lemma_term_eq_refl(tc);
                    assert(cand_compat(Some(tc), tc));
                    assert(sa_wff(p, a, x, tc, Seq::empty()));
                },
            }
        },
    }
}

/// Whether `a` is `p` with some single term substituted for every free
/// occurrence of the variable `x`.
pub fn subst_match_exec(p: &Wff, a: &Wff, x: &String) -> (r: bool)
    ensures
        r == subst_match(*p, *a, x@),
{
    let mut bound: Vec<String> = Vec::new();
    proof {
        assert(name_views(bound@) =~= Seq::<Seq<char>>::empty());
    }
    let res = sa_infer_wff_exec(p, a, x, &mut bound, None);
    res.is_some()
}

} // verus!
