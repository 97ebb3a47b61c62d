//! The per-rule inference checker and the verifier driver: every inference
//! line is checked against the schema of the rule its justification names,
//! citations are checked against the line's scope, and the verdicts are
//! collected into a [`ProofResult`].

use vstd::prelude::*;
use vstd::string::StringExecFns;
use crate::data::{Justification, NumberedLine, ProofNode, ProofResult, Term, Wff};
use crate::fitch::{
    find_numbered_line_spec, half_well_structured, normalize_spec, scope_walk, Proof,
};
use crate::subst::{
    alpha_equiv_spec, contains_name, free_in_wff, free_in_wff_exec, mar_wff, sa_wff, subst_match,
    term_eq, wff_eq,
};

verus! {

/// The formula on the line numbered `n`, if that line exists and carries one.
pub open spec fn cited_wff(s: Seq<ProofNode>, n: usize) -> Option<Wff> {
    match find_numbered_line_spec(s, 0, n) {
        Option::Some(l) => l.sentence,
        Option::None => None,
    }
}

/// The line numbers the inference at position `idx` may cite.
pub open spec fn visible_lines(s: Seq<ProofNode>, idx: int) -> Seq<usize> {
    scope_walk(s, idx, Seq::empty()).0
}

/// The closed subproofs the inference at position `idx` may cite.
pub open spec fn visible_subs(s: Seq<ProofNode>, idx: int) -> Seq<(usize, usize)> {
    scope_walk(s, idx, Seq::empty()).1
}

/// The eigenvariable condition: the boxed constant `c` does not occur free
/// in any formula visible to the inference at position `idx` (its enclosing
/// scopes).
pub open spec fn eigen_fresh(s: Seq<ProofNode>, idx: int, c: Seq<char>) -> bool {
    forall|k: int|
        0 <= k < visible_lines(s, idx).len() ==> (cited_wff(
            s,
            #[trigger] visible_lines(s, idx)[k],
        ) matches Some(f) ==> !free_in_wff(f, c))
}

/// The contract of a single inference rule: the justification `j` derives
/// the conclusion `c` at position `idx`, with every citation in scope and
/// every cited line carrying a formula.
///
/// Three readings are fixed here: a contradiction introduction cites the
/// formula first and its negation second, in the order of the
/// justification's fields; an equality elimination replaces in one
/// direction per invocation (left by right, or right by left), never mixing
/// the two within one formula; and the quantifier rules match substitution
/// strictly, refusing an instance whose term would be captured by an inner
/// binder instead of alpha-renaming that binder.
pub open spec fn rule_ok(
    s: Seq<ProofNode>,
    idx: int,
    c: Wff,
    j: Justification,
    allowed: Seq<String>,
) -> bool {
    match j {
        Justification::AndIntro(ns) => ns@.len() >= 2 && (c matches Wff::And(cs) && cs@.len()
            == ns@.len() && (forall|k: int|
            0 <= k < ns@.len() ==> visible_lines(s, idx).contains(#[trigger] ns@[k]) && (cited_wff(
                s,
                ns@[k],
            ) matches Some(f) && wff_eq(cs@[k], f)))),
        Justification::AndElim(n) => visible_lines(s, idx).contains(n) && (cited_wff(s, n)
            matches Some(f) && (f matches Wff::And(cs) && (exists|k: int|
            0 <= k < cs@.len() && wff_eq(#[trigger] cs@[k], c)))),
        Justification::OrIntro(n) => visible_lines(s, idx).contains(n) && (cited_wff(s, n)
            matches Some(f) && (c matches Wff::Or(ds) && (exists|k: int|
            0 <= k < ds@.len() && wff_eq(#[trigger] ds@[k], f)))),
        Justification::OrElim(n, subs) => visible_lines(s, idx).contains(n) && (cited_wff(s, n)
            matches Some(d) && (d matches Wff::Or(ds) && subs@.len() == ds@.len() && (forall|k: int|
            0 <= k < subs@.len() ==> visible_subs(s, idx).contains(#[trigger] subs@[k]) && (
            cited_wff(s, subs@[k].0) matches Some(pf) && wff_eq(pf, ds@[k])) && (cited_wff(
                s,
                subs@[k].1,
            ) matches Some(lf) && alpha_equiv_spec(lf, c))))),
        Justification::NotIntro((b, e)) => visible_subs(s, idx).contains((b, e)) && (cited_wff(s, b)
            matches Some(pf) && (cited_wff(s, e) matches Some(lf) && wff_eq(lf, Wff::Bottom) && (c
            matches Wff::Not(inner) && wff_eq(*inner, pf)))),
        Justification::NotElim(n) => visible_lines(s, idx).contains(n) && (cited_wff(s, n)
            matches Some(f) && (f matches Wff::Not(g) && (*g matches Wff::Not(h) && wff_eq(c, *h)))),
        Justification::BottomIntro(n, m) => visible_lines(s, idx).contains(n) && visible_lines(
            s,
            idx,
        ).contains(m) && (cited_wff(s, n) matches Some(f1) && (cited_wff(s, m) matches Some(f2) && (
        f2 matches Wff::Not(g) && wff_eq(*g, f1)))) && c is Bottom,
        Justification::BottomElim(n) => visible_lines(s, idx).contains(n) && (cited_wff(s, n)
            matches Some(f) && f is Bottom),
        Justification::ImpliesIntro((b, e)) => visible_subs(s, idx).contains((b, e)) && (cited_wff(
            s,
            b,
        ) matches Some(pf) && (cited_wff(s, e) matches Some(lf) && (c matches Wff::Implies(p, q)
            && wff_eq(*p, pf) && wff_eq(*q, lf)))),
        Justification::ImpliesElim(n, m) => visible_lines(s, idx).contains(n) && visible_lines(
            s,
            idx,
        ).contains(m) && (cited_wff(s, n) matches Some(fi) && (fi matches Wff::Implies(p, q) && (
        cited_wff(s, m) matches Some(fa) && wff_eq(fa, *p) && wff_eq(c, *q)))),
        Justification::BicondIntro((b1, e1), (b2, e2)) => visible_subs(s, idx).contains((b1, e1))
            && visible_subs(s, idx).contains((b2, e2)) && (cited_wff(s, b1) matches Some(pf1) && (
        cited_wff(s, e1) matches Some(lf1) && (cited_wff(s, b2) matches Some(pf2) && (cited_wff(
            s,
            e2,
        ) matches Some(lf2) && wff_eq(pf2, lf1) && wff_eq(lf2, pf1) && (c matches Wff::Bicond(l, r)
            && wff_eq(*l, pf1) && wff_eq(*r, lf1)))))),
        Justification::BicondElim(n, m) => visible_lines(s, idx).contains(n) && visible_lines(
            s,
            idx,
        ).contains(m) && (cited_wff(s, n) matches Some(fb) && (fb matches Wff::Bicond(l, r) && (
        cited_wff(s, m) matches Some(fop) && ((wff_eq(fop, *l) && wff_eq(c, *r)) || (wff_eq(
            fop,
            *r,
        ) && wff_eq(c, *l)))))),
        Justification::EqualsIntro => c matches Wff::Equals(t1, t2) && term_eq(t1, t2),
        Justification::EqualsElim(n, m) => visible_lines(s, idx).contains(n) && visible_lines(
            s,
            idx,
        ).contains(m) && (cited_wff(s, n) matches Some(fe) && (fe matches Wff::Equals(lt, rt) && (
        cited_wff(s, m) matches Some(fs) && (mar_wff(fs, c, lt, rt, Seq::empty()) || mar_wff(
            fs,
            c,
            rt,
            lt,
            Seq::empty(),
        ))))),
        Justification::ForallIntro((b, e)) => visible_subs(s, idx).contains((b, e)) && (
        find_numbered_line_spec(s, 0, b) matches Some(pl) && (pl.boxed_constant matches Some(bc)
            && (bc matches Term::Atomic(cn) && pl.sentence is None && !contains_name(allowed, cn@)
            && eigen_fresh(s, idx, cn@) && (cited_wff(s, e) matches Some(lf) && (c
            matches Wff::Forall(x, body) && contains_name(allowed, x@) && sa_wff(
            *body,
            lf,
            x@,
            Term::Atomic(cn),
            Seq::empty(),
        ) && !free_in_wff(*body, cn@)))))),
        Justification::ForallElim(n) => visible_lines(s, idx).contains(n) && (cited_wff(s, n)
            matches Some(f) && (f matches Wff::Forall(x, body) && subst_match(*body, c, x@))),
        Justification::ExistsIntro(n) => visible_lines(s, idx).contains(n) && (cited_wff(s, n)
            matches Some(f) && (c matches Wff::Exists(x, body) && subst_match(*body, f, x@))),
        Justification::ExistsElim(n, (b, e)) => visible_lines(s, idx).contains(n) && visible_subs(
            s,
            idx,
        ).contains((b, e)) && (cited_wff(s, n) matches Some(ef) && (ef matches Wff::Exists(x, xb)
            && (find_numbered_line_spec(s, 0, b) matches Some(pl) && (pl.boxed_constant
            matches Some(bc) && (bc matches Term::Atomic(cn) && !contains_name(allowed, cn@) && (
        pl.sentence matches Some(pf) && sa_wff(*xb, pf, x@, Term::Atomic(cn), Seq::empty())
            && !free_in_wff(c, cn@) && eigen_fresh(s, idx, cn@) && (cited_wff(s, e)
            matches Some(lf) && wff_eq(lf, c)))))))),
        Justification::Reit(n) => visible_lines(s, idx).contains(n) && (cited_wff(s, n)
            matches Some(f) && wff_eq(f, c)),
    }
}

/// The index of the last meaningful (non-empty) node before position `i`,
/// or -1 when there is none.
pub open spec fn prev_meaningful(s: Seq<ProofNode>, i: int) -> int
    decreases i,
{
    if i <= 0 {
        -1
    } else if i > s.len() {
        prev_meaningful(s, s.len() as int)
    } else if !(s[i - 1] is Empty) {
        i - 1
    } else {
        prev_meaningful(s, i - 1)
    }
}

/// Whether the numbered line at position `idx` stands in premise position:
/// in the leading premise section of the proof, or as the single premise
/// line of a freshly opened subproof. Only such lines may lack a
/// justification.
pub open spec fn premise_position(s: Seq<ProofNode>, idx: int) -> bool {
    ||| (forall|j: int|
        0 <= j < idx ==> (s[j] is Empty || ((#[trigger] s[j]) matches ProofNode::Numbered(l)
            && l.justification is None)))
    ||| {
        let p = prev_meaningful(s, idx);
        0 <= p && s[p] is SubproofOpen
    }
}

/// The verdict on the numbered line at position `idx`: a justified line
/// needs a sentence, no boxed constant, and a satisfied rule contract; an
/// unjustified line must stand in premise position and carry a sentence or
/// a boxed constant.
pub open spec fn line_ok(s: Seq<ProofNode>, idx: int, allowed: Seq<String>) -> bool {
    s[idx] matches ProofNode::Numbered(l) ==> (match l.justification {
        Option::Some(j) => l.sentence matches Some(c) && l.boxed_constant is None && rule_ok(
            s,
            idx,
            c,
            j,
            allowed,
        ),
        Option::None => premise_position(s, idx) && (l.sentence is Some || l.boxed_constant
            is Some),
    })
}

/// Every numbered line of the proof passes its check.
pub open spec fn proof_lines_ok(s: Seq<ProofNode>, allowed: Seq<String>) -> bool {
    forall|idx: int| 0 <= idx < s.len() ==> #[trigger] line_ok(s, idx, allowed)
}

/// The message `m` names line `n`: it begins with `on line `, the decimal
/// rendering of `n`, and a colon. Message text beyond that prefix is
/// deliberately not part of any contract.
pub open spec fn locates_line(m: Seq<char>, n: usize) -> bool {
    let pre = "on line "@ + crate::fitch::dec_digits(n as int) + seq![':'];
    pre.len() <= m.len() && m.take(pre.len() as int) == pre
}

/// The line numbers of the numbered lines among the first `i` nodes of `s`
/// that fail their check, in document order.
pub open spec fn failing_lines(s: Seq<ProofNode>, i: int, allowed: Seq<String>) -> Seq<usize>
    decreases i,
{
    if i <= 0 {
        Seq::empty()
    } else {
        failing_lines(s, i - 1, allowed) + (match s[i - 1] {
            ProofNode::Numbered(l) => if !line_ok(s, i - 1, allowed) {
                seq![l.line_num]
            } else {
                Seq::empty()
            },
            _ => Seq::empty(),
        })
    }
}

/// Builds an error message that names the offending line.
fn line_msg(n: usize, text: &str) -> (r: String)
    ensures
        locates_line(r@, n),
{
    let r = "on line ".to_owned().concat(crate::fitch::usize_to_string(n).as_str()).concat(
        ": ",
    ).concat(text);
    proof {
        reveal_strlit(": ");
        let pre = "on line "@ + crate::fitch::dec_digits(n as int) + seq![':'];
        assert(r@.take(pre.len() as int) =~= pre);
    }
    r
}

/// Looks up the formula on line `n`.
fn cited_wff_exec<'a>(p: &'a Proof, n: usize) -> (r: Option<&'a Wff>)
    ensures
        match r {
            Some(w) => cited_wff(p.nodes@, n) == Some(*w),
            None => cited_wff(p.nodes@, n) is None,
        },
{
    match p.find_numbered_line(n) {
        Some(l) => match &l.sentence {
            Some(w) => Some(w),
            None => None,
        },
        None => None,
    }
}

/// The scope entry of the inference at position `idx`: the lines and closed
/// subproofs it may cite.
fn scope_entry<'a>(p: &'a Proof, idx: usize, line: &NumberedLine) -> (entry: &'a (
    Vec<usize>,
    Vec<(usize, usize)>,
))
    requires
        p.wf(),
        idx < p.nodes@.len(),
        p.nodes@[idx as int] == ProofNode::Numbered(*line),
        line.justification is Some,
    ensures
        entry.0@ == visible_lines(p.nodes@, idx as int),
        entry.1@ == visible_subs(p.nodes@, idx as int),
        line.line_num < p.scope@.len(),
{
    proof {
        assert(p.nodes@[idx as int] matches ProofNode::Numbered(l) && l.justification is Some
            && 0 <= l.line_num < p.scope@.len() && p.scope@[l.line_num as int].0@ == scope_walk(
            p.nodes@,
            idx as int,
            Seq::empty(),
        ).0 && p.scope@[l.line_num as int].1@ == scope_walk(p.nodes@, idx as int, Seq::empty()).1);
    }
    &p.scope[line.line_num]
}

/// Whether the line number `n` is among the visible lines `v`.
#[verifier::loop_isolation(false)]
fn contains_line(v: &Vec<usize>, n: usize) -> (r: bool)
    ensures
        r == v@.contains(n),
{
    let mut i: usize = 0;
    while i < v.len()
        invariant
            i <= v@.len(),
            forall|j: int| 0 <= j < i ==> v@[j] != n,
        decreases v@.len() - i,
    {
        if v[i] == n {
            return true;
        }
        i = i + 1;
    }
    false
}

/// Whether the subproof range `(b, e)` is among the visible subproofs `v`.
#[verifier::loop_isolation(false)]
fn contains_sub(v: &Vec<(usize, usize)>, b: usize, e: usize) -> (r: bool)
    ensures
        r == v@.contains((b, e)),
{
    let mut i: usize = 0;
    while i < v.len()
        invariant
            i <= v@.len(),
            forall|j: int| 0 <= j < i ==> #[trigger] v@[j] != (b, e),
        decreases v@.len() - i,
    {
        if v[i].0 == b && v[i].1 == e {
            return true;
        }
        i = i + 1;
    }
    false
}

/// Checks the eigenvariable condition for the boxed constant `cname` at the
/// inference in position `idx`.
#[verifier::loop_isolation(false)]
fn eigen_fresh_exec(p: &Proof, idx: usize, line: &NumberedLine, cname: &String) -> (r: bool)
    requires
        p.wf(),
        idx < p.nodes@.len(),
        p.nodes@[idx as int] == ProofNode::Numbered(*line),
        line.justification is Some,
    ensures
        r == eigen_fresh(p.nodes@, idx as int, cname@),
{
    let entry = scope_entry(p, idx, line);
    let mut k: usize = 0;
    while k < entry.0.len()
        invariant
            k <= entry.0@.len(),
            entry.0@ == visible_lines(p.nodes@, idx as int),
            forall|j: int|
                0 <= j < k ==> (cited_wff(
                    p.nodes@,
                    #[trigger] visible_lines(p.nodes@, idx as int)[j],
                ) matches Some(f) ==> !free_in_wff(f, cname@)),
        decreases entry.0@.len() - k,
    {
        match cited_wff_exec(p, entry.0[k]) {
            Some(f) => {
                if free_in_wff_exec(f, cname) {
                    return false;
                }
            },
            None => {},
        }
        k = k + 1;
    }
    true
}

/// Checks one inference against the schema of its rule.
#[verifier::loop_isolation(false)]
#[verifier::rlimit(60)]
fn check_rule(p: &Proof, idx: usize, line: &NumberedLine, c: &Wff, j: &Justification) -> (r:
    Result<(), String>)
    requires
        p.wf(),
        idx < p.nodes@.len(),
        p.nodes@[idx as int] == ProofNode::Numbered(*line),
        line.justification is Some,
    ensures
        (r is Ok) == rule_ok(p.nodes@, idx as int, *c, *j, p.allowed_variable_names@),
        r matches Err(m) ==> locates_line(m@, line.line_num),
{
    let ghost s = p.nodes@;
    let ghost allowed = p.allowed_variable_names@;
    let ln = line.line_num;
    let entry = scope_entry(p, idx, line);
    match j {
        Justification::AndIntro(ns) => {
            if ns.len() < 2 {
                return Err(line_msg(ln, "a conjunction introduction must cite at least two lines"));
            }
            let cs = match c {
                Wff::And(cs) => cs,
                _ => {
                    return Err(line_msg(ln, "the conclusion must be a conjunction"));
                },
            };
            if cs.len() != ns.len() {
                return Err(
                    line_msg(ln, "the conclusion must have one conjunct per cited line, in order"),
                );
            }
            let mut k: usize = 0;
            while k < ns.len()
                invariant
                    k <= ns@.len(),
                    forall|i2: int|
                        0 <= i2 < k ==> visible_lines(s, idx as int).contains(#[trigger] ns@[i2])
                            && (cited_wff(s, ns@[i2]) matches Some(f) && wff_eq(cs@[i2], f)),
                decreases ns@.len() - k,
            {
                if !contains_line(&entry.0, ns[k]) {
                    return Err(line_msg(ln, "citation of a line that is not in scope"));
                }
                match cited_wff_exec(p, ns[k]) {
                    None => {
                        return Err(line_msg(ln, "cannot cite a line without formula"));
                    },
                    Some(f) => {
                        if !crate::subst::wff_eq_exec(&cs[k], f) {
                            return Err(
                                line_msg(
                                    ln,
                                    "the conclusion must have one conjunct per cited line, in order",
                                ),
                            );
                        }
                    },
                }
                k = k + 1;
            }
            Ok(())
        },
        Justification::AndElim(n) => {
            if !contains_line(&entry.0, *n) {
                return Err(line_msg(ln, "citation of a line that is not in scope"));
            }
            let f = match cited_wff_exec(p, *n) {
                Some(f) => f,
                None => {
                    return Err(line_msg(ln, "cannot cite a line without formula"));
                },
            };
            let cs = match f {
                Wff::And(cs) => cs,
                _ => {
                    return Err(line_msg(ln, "the cited formula must be a conjunction"));
                },
            };
            let mut k: usize = 0;
            while k < cs.len()
                invariant
                    k <= cs@.len(),
                    forall|i2: int| 0 <= i2 < k ==> !wff_eq(#[trigger] cs@[i2], *c),
                decreases cs@.len() - k,
            {
                if crate::subst::wff_eq_exec(&cs[k], c) {
                    return Ok(());
                }
                k = k + 1;
            }
            Err(line_msg(ln, "the conclusion is not a conjunct of the cited conjunction"))
        },
        Justification::OrIntro(n) => {
            if !contains_line(&entry.0, *n) {
                return Err(line_msg(ln, "citation of a line that is not in scope"));
            }
            let f = match cited_wff_exec(p, *n) {
                Some(f) => f,
                None => {
                    return Err(line_msg(ln, "cannot cite a line without formula"));
                },
            };
            let ds = match c {
                Wff::Or(ds) => ds,
                _ => {
                    return Err(line_msg(ln, "the conclusion must be a disjunction"));
                },
            };
            let mut k: usize = 0;
            while k < ds.len()
                invariant
                    k <= ds@.len(),
                    forall|i2: int| 0 <= i2 < k ==> !wff_eq(#[trigger] ds@[i2], *f),
                decreases ds@.len() - k,
            {
                if crate::subst::wff_eq_exec(&ds[k], f) {
                    return Ok(());
                }
                k = k + 1;
            }
            Err(line_msg(ln, "the cited formula is not a disjunct of the conclusion"))
        },
        Justification::OrElim(n, subs) => {
            if !contains_line(&entry.0, *n) {
                return Err(line_msg(ln, "citation of a line that is not in scope"));
            }
            let d = match cited_wff_exec(p, *n) {
                Some(d) => d,
                None => {
                    return Err(line_msg(ln, "cannot cite a line without formula"));
                },
            };
            let ds = match d {
                Wff::Or(ds) => ds,
                _ => {
                    return Err(line_msg(ln, "the cited formula must be a disjunction"));
                },
            };
            if subs.len() != ds.len() {
                return Err(line_msg(ln, "one subproof per disjunct must be cited, in order"));
            }
            let mut k: usize = 0;
            while k < subs.len()
                invariant
                    k <= subs@.len(),
                    subs@.len() == ds@.len(),
                    forall|i2: int|
                        0 <= i2 < k ==> visible_subs(s, idx as int).contains(#[trigger] subs@[i2])
                            && (cited_wff(s, subs@[i2].0) matches Some(pf) && wff_eq(pf, ds@[i2]))
                            && (cited_wff(s, subs@[i2].1) matches Some(lf) && alpha_equiv_spec(
                            lf,
                            *c,
                        )),
                decreases subs@.len() - k,
            {
                let (b, e) = subs[k];
                if !contains_sub(&entry.1, b, e) {
                    return Err(line_msg(ln, "citation of a subproof that is not in scope"));
                }
                match cited_wff_exec(p, b) {
                    None => {
                        return Err(line_msg(ln, "cannot cite a line without formula"));
                    },
                    Some(pf) => {
                        if !crate::subst::wff_eq_exec(pf, &ds[k]) {
                            return Err(
                                line_msg(
                                    ln,
                                    "each cited subproof must assume the corresponding disjunct",
                                ),
                            );
                        }
                    },
                }
                match cited_wff_exec(p, e) {
                    None => {
                        return Err(line_msg(ln, "cannot cite a line without formula"));
                    },
                    Some(lf) => {
                        if !crate::subst::alpha_equiv(lf, c) {
                            return Err(
                                line_msg(ln, "each cited subproof must conclude the conclusion"),
                            );
                        }
                    },
                }
                k = k + 1;
            }
            Ok(())
        },
        Justification::NotIntro((b, e)) => {
            if !contains_sub(&entry.1, *b, *e) {
                return Err(line_msg(ln, "citation of a subproof that is not in scope"));
            }
            let pf = match cited_wff_exec(p, *b) {
                Some(pf) => pf,
                None => {
                    return Err(line_msg(ln, "cannot cite a line without formula"));
                },
            };
            let lf = match cited_wff_exec(p, *e) {
                Some(lf) => lf,
                None => {
                    return Err(line_msg(ln, "cannot cite a line without formula"));
                },
            };
            match lf {
                Wff::Bottom => {},
                _ => {
                    return Err(line_msg(ln, "the cited subproof must end in a contradiction"));
                },
            }
            match c {
                Wff::Not(inner) => {
                    if crate::subst::wff_eq_exec(&**inner, pf) {
                        Ok(())
                    } else {
                        Err(
                            line_msg(
                                ln,
                                "the conclusion must negate the premise of the cited subproof",
                            ),
                        )
                    }
                },
                _ => Err(line_msg(ln, "the conclusion must be a negation")),
            }
        },
        Justification::NotElim(n) => {
            if !contains_line(&entry.0, *n) {
                return Err(line_msg(ln, "citation of a line that is not in scope"));
            }
            let f = match cited_wff_exec(p, *n) {
                Some(f) => f,
                None => {
                    return Err(line_msg(ln, "cannot cite a line without formula"));
                },
            };
            match f {
                Wff::Not(g) => match &**g {
                    Wff::Not(h) => {
                        if crate::subst::wff_eq_exec(c, &**h) {
                            Ok(())
                        } else {
                            Err(
                                line_msg(
                                    ln,
                                    "the conclusion must be the cited formula without its double negation",
                                ),
                            )
                        }
                    },
                    _ => Err(line_msg(ln, "the cited formula must be a double negation")),
                },
                _ => Err(line_msg(ln, "the cited formula must be a double negation")),
            }
        },
        Justification::BottomIntro(n, m) => {
            if !contains_line(&entry.0, *n) || !contains_line(&entry.0, *m) {
                return Err(line_msg(ln, "citation of a line that is not in scope"));
            }
            let f1 = match cited_wff_exec(p, *n) {
                Some(f) => f,
                None => {
                    return Err(line_msg(ln, "cannot cite a line without formula"));
                },
            };
            let f2 = match cited_wff_exec(p, *m) {
                Some(f) => f,
                None => {
                    return Err(line_msg(ln, "cannot cite a line without formula"));
                },
            };
            match f2 {
                Wff::Not(g) => {
                    if !crate::subst::wff_eq_exec(&**g, f1) {
                        return Err(
                            line_msg(ln, "the second cited formula must negate the first one"),
                        );
                    }
                },
                _ => {
                    return Err(line_msg(ln, "the second cited formula must negate the first one"));
                },
            }
            match c {
                Wff::Bottom => Ok(()),
                _ => Err(line_msg(ln, "the conclusion must be the contradiction symbol")),
            }
        },
        Justification::BottomElim(n) => {
            if !contains_line(&entry.0, *n) {
                return Err(line_msg(ln, "citation of a line that is not in scope"));
            }
            let f = match cited_wff_exec(p, *n) {
                Some(f) => f,
                None => {
                    return Err(line_msg(ln, "cannot cite a line without formula"));
                },
            };
            match f {
                Wff::Bottom => Ok(()),
                _ => Err(line_msg(ln, "the cited formula must be the contradiction symbol")),
            }
        },
        Justification::ImpliesIntro((b, e)) => {
            if !contains_sub(&entry.1, *b, *e) {
                return Err(line_msg(ln, "citation of a subproof that is not in scope"));
            }
            let pf = match cited_wff_exec(p, *b) {
                Some(pf) => pf,
                None => {
                    return Err(line_msg(ln, "cannot cite a line without formula"));
                },
            };
            let lf = match cited_wff_exec(p, *e) {
                Some(lf) => lf,
                None => {
                    return Err(line_msg(ln, "cannot cite a line without formula"));
                },
            };
            match c {
                Wff::Implies(cp, cq) => {
                    if crate::subst::wff_eq_exec(&**cp, pf) && crate::subst::wff_eq_exec(
                        &**cq,
                        lf,
                    ) {
                        Ok(())
                    } else {
                        Err(
                            line_msg(
                                ln,
                                "the conclusion must join the cited subproof's premise and last line",
                            ),
                        )
                    }
                },
                _ => Err(line_msg(ln, "the conclusion must be an implication")),
            }
        },
        Justification::ImpliesElim(n, m) => {
            if !contains_line(&entry.0, *n) || !contains_line(&entry.0, *m) {
                return Err(line_msg(ln, "citation of a line that is not in scope"));
            }
            let fi = match cited_wff_exec(p, *n) {
                Some(f) => f,
                None => {
                    return Err(line_msg(ln, "cannot cite a line without formula"));
                },
            };
            let fa = match cited_wff_exec(p, *m) {
                Some(f) => f,
                None => {
                    return Err(line_msg(ln, "cannot cite a line without formula"));
                },
            };
            match fi {
                Wff::Implies(ip, iq) => {
                    if crate::subst::wff_eq_exec(fa, &**ip) && crate::subst::wff_eq_exec(
                        c,
                        &**iq,
                    ) {
                        Ok(())
                    } else {
                        Err(
                            line_msg(
                                ln,
                                "the cited lines must be an implication and its antecedent, and the conclusion its consequent",
                            ),
                        )
                    }
                },
                _ => Err(line_msg(ln, "the first cited formula must be an implication")),
            }
        },
        Justification::BicondIntro((b1, e1), (b2, e2)) => {
            if !contains_sub(&entry.1, *b1, *e1) || !contains_sub(&entry.1, *b2, *e2) {
                return Err(line_msg(ln, "citation of a subproof that is not in scope"));
            }
            let pf1 = match cited_wff_exec(p, *b1) {
                Some(f) => f,
                None => {
                    return Err(line_msg(ln, "cannot cite a line without formula"));
                },
            };
            let lf1 = match cited_wff_exec(p, *e1) {
                Some(f) => f,
                None => {
                    return Err(line_msg(ln, "cannot cite a line without formula"));
                },
            };
            let pf2 = match cited_wff_exec(p, *b2) {
                Some(f) => f,
                None => {
                    return Err(line_msg(ln, "cannot cite a line without formula"));
                },
            };
            let lf2 = match cited_wff_exec(p, *e2) {
                Some(f) => f,
                None => {
                    return Err(line_msg(ln, "cannot cite a line without formula"));
                },
            };
            if !crate::subst::wff_eq_exec(pf2, lf1) || !crate::subst::wff_eq_exec(lf2, pf1) {
                return Err(
                    line_msg(ln, "the two cited subproofs must derive each side from the other"),
                );
            }
            match c {
                Wff::Bicond(cl, cr) => {
                    if crate::subst::wff_eq_exec(&**cl, pf1) && crate::subst::wff_eq_exec(
                        &**cr,
                        lf1,
                    ) {
                        Ok(())
                    } else {
                        Err(
                            line_msg(
                                ln,
                                "the conclusion must join the premise and last line of the first cited subproof",
                            ),
                        )
                    }
                },
                _ => Err(line_msg(ln, "the conclusion must be a biconditional")),
            }
        },
        Justification::BicondElim(n, m) => {
            if !contains_line(&entry.0, *n) || !contains_line(&entry.0, *m) {
                return Err(line_msg(ln, "citation of a line that is not in scope"));
            }
            let fb = match cited_wff_exec(p, *n) {
                Some(f) => f,
                None => {
                    return Err(line_msg(ln, "cannot cite a line without formula"));
                },
            };
            let fop = match cited_wff_exec(p, *m) {
                Some(f) => f,
                None => {
                    return Err(line_msg(ln, "cannot cite a line without formula"));
                },
            };
            match fb {
                Wff::Bicond(bl, br) => {
                    if (crate::subst::wff_eq_exec(fop, &**bl) && crate::subst::wff_eq_exec(
                        c,
                        &**br,
                    )) || (crate::subst::wff_eq_exec(fop, &**br) && crate::subst::wff_eq_exec(
                        c,
                        &**bl,
                    )) {
                        Ok(())
                    } else {
                        Err(
                            line_msg(
                                ln,
                                "the second cited formula must be one side of the biconditional and the conclusion the other",
                            ),
                        )
                    }
                },
                _ => Err(line_msg(ln, "the first cited formula must be a biconditional")),
            }
        },
        Justification::EqualsIntro => {
            match c {
                Wff::Equals(t1, t2) => {
                    if crate::subst::term_eq_exec(t1, t2) {
                        Ok(())
                    } else {
                        Err(line_msg(ln, "the conclusion must equate a term with itself"))
                    }
                },
                _ => Err(line_msg(ln, "the conclusion must be an equality")),
            }
        },
        Justification::EqualsElim(n, m) => {
            if !contains_line(&entry.0, *n) || !contains_line(&entry.0, *m) {
                return Err(line_msg(ln, "citation of a line that is not in scope"));
            }
            let fe = match cited_wff_exec(p, *n) {
                Some(f) => f,
                None => {
                    return Err(line_msg(ln, "cannot cite a line without formula"));
                },
            };
            let fs = match cited_wff_exec(p, *m) {
                Some(f) => f,
                None => {
                    return Err(line_msg(ln, "cannot cite a line without formula"));
                },
            };
            match fe {
                Wff::Equals(lt, rt) => {
                    if crate::subst::matches_after_replacing(fs, c, lt, rt)
                        || crate::subst::matches_after_replacing(fs, c, rt, lt) {
                        Ok(())
                    } else {
                        Err(
                            line_msg(
                                ln,
                                "the conclusion must come from the cited formula by replacing equals by equals",
                            ),
                        )
                    }
                },
                _ => Err(line_msg(ln, "the first cited formula must be an equality")),
            }
        },
        Justification::ForallIntro((b, e)) => {
            if !contains_sub(&entry.1, *b, *e) {
                return Err(line_msg(ln, "citation of a subproof that is not in scope"));
            }
            let pl = match p.find_numbered_line(*b) {
                Some(pl) => pl,
                None => {
                    return Err(line_msg(ln, "the cited subproof does not exist"));
                },
            };
            let bc = match &pl.boxed_constant {
                Some(bc) => bc,
                None => {
                    return Err(
                        line_msg(ln, "the cited subproof must introduce a boxed constant"),
                    );
                },
            };
            let cn = match bc {
                Term::Atomic(cn) => cn,
                _ => {
                    return Err(line_msg(ln, "a boxed constant must be an atomic name"));
                },
            };
            if pl.sentence.is_some() {
                return Err(
                    line_msg(
                        ln,
                        "the premise of the cited subproof must carry only the boxed constant",
                    ),
                );
            }
            if crate::subst::is_variable(cn, &p.allowed_variable_names) {
                return Err(line_msg(ln, "the boxed name must be a constant, not a variable"));
            }
            if !eigen_fresh_exec(p, idx, line, cn) {
                return Err(
                    line_msg(
                        ln,
                        "the boxed constant occurs free in a formula of an enclosing scope",
                    ),
                );
            }
            let lf = match cited_wff_exec(p, *e) {
                Some(f) => f,
                None => {
                    return Err(line_msg(ln, "cannot cite a line without formula"));
                },
            };
            match c {
                Wff::Forall(x, body) => {
                    if !crate::subst::is_variable(x, &p.allowed_variable_names) {
                        return Err(
                            line_msg(ln, "the quantified name must be an allowed variable"),
                        );
                    }
                    if !crate::subst::substitutes_to(&**body, lf, x, bc) {
                        return Err(
                            line_msg(
                                ln,
                                "the conclusion must generalize the cited subproof's last line over the boxed constant",
                            ),
                        );
                    }
                    if free_in_wff_exec(&**body, cn) {
                        return Err(
                            line_msg(
                                ln,
                                "every occurrence of the boxed constant must be generalized",
                            ),
                        );
                    }
                    Ok(())
                },
                _ => Err(line_msg(ln, "the conclusion must be a universal quantification")),
            }
        },
        Justification::ForallElim(n) => {
            if !contains_line(&entry.0, *n) {
                return Err(line_msg(ln, "citation of a line that is not in scope"));
            }
            let f = match cited_wff_exec(p, *n) {
                Some(f) => f,
                None => {
                    return Err(line_msg(ln, "cannot cite a line without formula"));
                },
            };
            match f {
                Wff::Forall(x, body) => {
                    if crate::subst::subst_match_exec(&**body, c, x) {
                        Ok(())
                    } else {
                        Err(
                            line_msg(
                                ln,
                                "the conclusion must instantiate the cited universal with a single term",
                            ),
                        )
                    }
                },
                _ => Err(line_msg(ln, "the cited formula must be a universal quantification")),
            }
        },
        Justification::ExistsIntro(n) => {
            if !contains_line(&entry.0, *n) {
                return Err(line_msg(ln, "citation of a line that is not in scope"));
            }
            let f = match cited_wff_exec(p, *n) {
                Some(f) => f,
                None => {
                    return Err(line_msg(ln, "cannot cite a line without formula"));
                },
            };
            match c {
                Wff::Exists(x, body) => {
                    if crate::subst::subst_match_exec(&**body, f, x) {
                        Ok(())
                    } else {
                        Err(
                            line_msg(
                                ln,
                                "the cited formula must instantiate the conclusion's existential with a single witness term",
                            ),
                        )
                    }
                },
                _ => Err(line_msg(ln, "the conclusion must be an existential quantification")),
            }
        },
        Justification::ExistsElim(n, (b, e)) => {
            if !contains_line(&entry.0, *n) {
                return Err(line_msg(ln, "citation of a line that is not in scope"));
            }
            if !contains_sub(&entry.1, *b, *e) {
                return Err(line_msg(ln, "citation of a subproof that is not in scope"));
            }
            let ef = match cited_wff_exec(p, *n) {
                Some(f) => f,
                None => {
                    return Err(line_msg(ln, "cannot cite a line without formula"));
                },
            };
            match ef {
                Wff::Exists(x, xb) => {
                    let pl = match p.find_numbered_line(*b) {
                        Some(pl) => pl,
                        None => {
                            return Err(line_msg(ln, "the cited subproof does not exist"));
                        },
                    };
                    let bc = match &pl.boxed_constant {
                        Some(bc) => bc,
                        None => {
                            return Err(
                                line_msg(ln, "the cited subproof must introduce a boxed constant"),
                            );
                        },
                    };
                    let cn = match bc {
                        Term::Atomic(cn) => cn,
                        _ => {
                            return Err(line_msg(ln, "a boxed constant must be an atomic name"));
                        },
                    };
                    if crate::subst::is_variable(cn, &p.allowed_variable_names) {
                        return Err(
                            line_msg(ln, "the boxed name must be a constant, not a variable"),
                        );
                    }
                    let pf = match &pl.sentence {
                        Some(pf) => pf,
                        None => {
                            return Err(
                                line_msg(
                                    ln,
                                    "the cited subproof's premise must instantiate the existential",
                                ),
                            );
                        },
                    };
                    if !crate::subst::substitutes_to(&**xb, pf, x, bc) {
                        return Err(
                            line_msg(
                                ln,
                                "the cited subproof's premise must instantiate the existential with its boxed constant",
                            ),
                        );
                    }
                    if free_in_wff_exec(c, cn) {
                        return Err(
                            line_msg(ln, "the boxed constant must not occur in the conclusion"),
                        );
                    }
                    if !eigen_fresh_exec(p, idx, line, cn) {
                        return Err(
                            line_msg(
                                ln,
                                "the boxed constant occurs free in a formula of an enclosing scope",
                            ),
                        );
                    }
                    match cited_wff_exec(p, *e) {
                        Some(lf) => {
                            if crate::subst::wff_eq_exec(lf, c) {
                                Ok(())
                            } else {
                                Err(
                                    line_msg(
                                        ln,
                                        "the cited subproof's last line must equal the conclusion",
                                    ),
                                )
                            }
                        },
                        None => Err(line_msg(ln, "cannot cite a line without formula")),
                    }
                },
                _ => Err(line_msg(ln, "the cited formula must be an existential quantification")),
            }
        },
        Justification::Reit(n) => {
            if !contains_line(&entry.0, *n) {
                return Err(line_msg(ln, "citation of a line that is not in scope"));
            }
            match cited_wff_exec(p, *n) {
                Some(f) => {
                    if crate::subst::wff_eq_exec(f, c) {
                        Ok(())
                    } else {
                        Err(line_msg(ln, "the cited formula is not syntactically equal to this line"))
                    }
                },
                None => Err(line_msg(ln, "cannot cite a line without formula")),
            }
        },
    }
}

/// Decides whether the line at position `idx` stands in premise position.
#[verifier::loop_isolation(false)]
fn premise_position_exec(nodes: &Vec<ProofNode>, idx: usize) -> (r: bool)
    requires
        idx < nodes@.len(),
    ensures
        r == premise_position(nodes@, idx as int),
{
    let mut leading = true;
    let mut j: usize = 0;
    while j < idx
        invariant
            j <= idx,
            leading == (forall|k: int|
                0 <= k < j ==> (nodes@[k] is Empty || ((#[trigger] nodes@[k])
                    matches ProofNode::Numbered(l) && l.justification is None))),
        decreases idx - j,
    {
        match &nodes[j] {
            ProofNode::Empty { .. } => {},
            ProofNode::Numbered(l) if l.justification.is_none() => {},
            _ => {
                leading = false;
            },
        }
        j = j + 1;
    }
    if leading {
        return true;
    }
    let mut k: usize = idx;
    while k > 0
        invariant
            k <= idx,
            prev_meaningful(nodes@, idx as int) == prev_meaningful(nodes@, k as int),
        decreases k,
    {
        if !(matches!(&nodes[k - 1], ProofNode::Empty { .. })) {
            return matches!(&nodes[k - 1], ProofNode::SubproofOpen { .. });
        }
        k = k - 1;
    }
    false
}

/// Checks a whole proof: normalizes and validates the node list, then
/// checks every numbered line, collecting one error per faulty line in
/// document order.
#[verifier::loop_isolation(false)]
pub fn check(raw_nodes: Vec<ProofNode>, allowed_variable_names: Vec<String>) -> (r: ProofResult)
    ensures
        match r {
            ProofResult::Correct => normalize_spec(raw_nodes@) matches Some(ns)
                && half_well_structured(ns) && proof_lines_ok(ns, allowed_variable_names@),
            ProofResult::Error(es) => (normalize_spec(raw_nodes@) matches Some(ns)
                && half_well_structured(ns) && !proof_lines_ok(ns, allowed_variable_names@)
                && es@.len() == failing_lines(ns, ns.len() as int, allowed_variable_names@).len()
                && (forall|k: int|
                    0 <= k < es@.len() ==> locates_line(
                        (#[trigger] es@[k])@,
                        failing_lines(ns, ns.len() as int, allowed_variable_names@)[k],
                    ))) && es@.len() > 0,
            ProofResult::FatalError(_) => match normalize_spec(raw_nodes@) {
                Option::Some(ns) => !half_well_structured(ns),
                Option::None => true,
            },
        },
{
    let p = match Proof::construct(raw_nodes, allowed_variable_names) {
        Ok(p) => p,
        Err(e) => {
            return ProofResult::FatalError(e);
        },
    };
    let mut errors: Vec<String> = Vec::new();
    let mut idx: usize = 0;
    while idx < p.nodes.len()
        invariant
            idx <= p.nodes@.len(),
            (errors@.len() == 0) == (forall|j2: int|
                0 <= j2 < idx ==> #[trigger] line_ok(p.nodes@, j2, p.allowed_variable_names@)),
            errors@.len() == failing_lines(p.nodes@, idx as int, p.allowed_variable_names@).len(),
            forall|k: int|
                0 <= k < errors@.len() ==> locates_line(
                    (#[trigger] errors@[k])@,
                    failing_lines(p.nodes@, idx as int, p.allowed_variable_names@)[k],
                ),
        decreases p.nodes@.len() - idx,
    {
        let fail: Option<String> = match &p.nodes[idx] {
            ProofNode::Numbered(line) => {
                match &line.justification {
                    Some(j) => {
                        if line.boxed_constant.is_some() {
                            Some(
                                line_msg(
                                    line.line_num,
                                    "a boxed constant can only be introduced in the premise of a subproof",
                                ),
                            )
                        } else {
                            match &line.sentence {
                                None => Some(
                                    line_msg(line.line_num, "this inference has no sentence"),
                                ),
                                Some(c) => {
                                    match check_rule(&p, idx, line, c, j) {
                                        Ok(()) => None,
                                        Err(e) => Some(e),
                                    }
                                },
                            }
                        }
                    },
                    None => {
                        if !premise_position_exec(&p.nodes, idx) {
                            Some(
                                line_msg(
                                    line.line_num,
                                    "this line is missing a justification; only premises may lack one",
                                ),
                            )
                        } else if line.sentence.is_none() && line.boxed_constant.is_none() {
                            Some(line_msg(line.line_num, "this line is missing a sentence"))
                        } else {
                            None
                        }
                    },
                }
            },
            _ => None,
        };
        proof {
            assert((fail is None) == line_ok(p.nodes@, idx as int, p.allowed_variable_names@));
        }
        let ghost pre_errors = errors@;
        match fail {
            Some(m) => {
                errors.push(m);
            },
            None => {},
        }
        proof {
            let s = p.nodes@;
            let allowed = p.allowed_variable_names@;
            assert(failing_lines(s, idx + 1, allowed) =~= failing_lines(s, idx as int, allowed)
                + (match s[idx as int] {
                ProofNode::Numbered(l) => if !line_ok(s, idx as int, allowed) {
                    seq![l.line_num]
                } else {
                    Seq::<usize>::empty()
                },
                _ => Seq::<usize>::empty(),
            }));
            assert forall|k: int|
                0 <= k < errors@.len() implies locates_line(
                (#[trigger] errors@[k])@,
                failing_lines(s, idx + 1, allowed)[k],
            ) by {
                if k < pre_errors.len() {
                    assert(errors@[k] == pre_errors[k]);
                    assert(failing_lines(s, idx + 1, allowed)[k] == failing_lines(
                        s,
                        idx as int,
                        allowed,
                    )[k]);
                }
            }
        }
        idx = idx + 1;
    }
    if errors.len() == 0 {
        ProofResult::Correct
    } else {
        ProofResult::Error(errors)
    }
}

/// Every citation the justification `j` makes lies in the scope of the
/// inference at position `idx`: cited lines among its visible lines, cited
/// subproof ranges among its visible closed subproofs.
pub open spec fn justification_in_scope(s: Seq<ProofNode>, idx: int, j: Justification) -> bool {
    match j {
        Justification::AndIntro(ns) => forall|k: int|
            0 <= k < ns@.len() ==> visible_lines(s, idx).contains(#[trigger] ns@[k]),
        Justification::AndElim(n) => visible_lines(s, idx).contains(n),
        Justification::OrIntro(n) => visible_lines(s, idx).contains(n),
        Justification::OrElim(n, subs) => visible_lines(s, idx).contains(n) && forall|k: int|
            0 <= k < subs@.len() ==> visible_subs(s, idx).contains(#[trigger] subs@[k]),
        Justification::NotIntro((b, e)) => visible_subs(s, idx).contains((b, e)),
        Justification::NotElim(n) => visible_lines(s, idx).contains(n),
        Justification::BottomIntro(n, m) => visible_lines(s, idx).contains(n) && visible_lines(
            s,
            idx,
        ).contains(m),
        Justification::BottomElim(n) => visible_lines(s, idx).contains(n),
        Justification::ImpliesIntro((b, e)) => visible_subs(s, idx).contains((b, e)),
        Justification::ImpliesElim(n, m) => visible_lines(s, idx).contains(n) && visible_lines(
            s,
            idx,
        ).contains(m),
        Justification::BicondIntro((b1, e1), (b2, e2)) => visible_subs(s, idx).contains((b1, e1))
            && visible_subs(s, idx).contains((b2, e2)),
        Justification::BicondElim(n, m) => visible_lines(s, idx).contains(n) && visible_lines(
            s,
            idx,
        ).contains(m),
        Justification::EqualsIntro => true,
        Justification::EqualsElim(n, m) => visible_lines(s, idx).contains(n) && visible_lines(
            s,
            idx,
        ).contains(m),
        Justification::ForallIntro((b, e)) => visible_subs(s, idx).contains((b, e)),
        Justification::ForallElim(n) => visible_lines(s, idx).contains(n),
        Justification::ExistsIntro(n) => visible_lines(s, idx).contains(n),
        Justification::ExistsElim(n, (b, e)) => visible_lines(s, idx).contains(n) && visible_subs(
            s,
            idx,
        ).contains((b, e)),
        Justification::Reit(n) => visible_lines(s, idx).contains(n),
    }
}

/// Scope enforcement: in a proof whose every line checks out, every
/// justification cites only lines and closed subproofs that are visible to
/// it; a citation from inside a no-longer-open subproof can never pass.
pub proof fn lemma_lines_ok_citations_in_scope(s: Seq<ProofNode>, allowed: Seq<String>, idx: int)
    requires
        proof_lines_ok(s, allowed),
        0 <= idx < s.len(),
    ensures
        s[idx] matches ProofNode::Numbered(l) ==> (l.justification matches Some(j)
            ==> justification_in_scope(s, idx, j)),
{
    assert(line_ok(s, idx, allowed));
}

/// Substitution correctness at the rule level: in a proof whose every line
/// checks out, the conclusion of every universal elimination is the cited
/// body with one single term substituted for the quantified variable; any
/// other conclusion cannot pass.
pub proof fn lemma_forall_elim_instantiates(s: Seq<ProofNode>, allowed: Seq<String>, idx: int)
    requires
        proof_lines_ok(s, allowed),
        0 <= idx < s.len(),
    ensures
        s[idx] matches ProofNode::Numbered(l) ==> (l.justification matches Some(j) ==> (j
            matches Justification::ForallElim(n) ==> (l.sentence matches Some(c) ==> (cited_wff(
            s,
            n,
        ) matches Some(f) ==> (f matches Wff::Forall(x, body) ==> (exists|t: Term|
            crate::subst::sa_wff(*body, c, x@, t, Seq::empty()))))))),
{
    assert(line_ok(s, idx, allowed));
    match s[idx] {
        ProofNode::Numbered(l) => match l.justification {
            Some(Justification::ForallElim(n)) => match l.sentence {
                Some(c) => match cited_wff(s, n) {
                    Some(f) => match f {
                        Wff::Forall(x, body) => {
                            crate::subst::lemma_subst_match_characterization(*body, c, x@);
                        },
                        _ => {},
                    },
                    _ => {},
                },
                _ => {},
            },
            _ => {},
        },
        _ => {},
    }
}

/// Eigenvariable freshness: in a proof whose every line checks out, the
/// boxed constant of every universal introduction is fresh for every
/// formula of its enclosing scopes.
pub proof fn lemma_lines_ok_eigen_fresh(s: Seq<ProofNode>, allowed: Seq<String>, idx: int)
    requires
        proof_lines_ok(s, allowed),
        0 <= idx < s.len(),
    ensures
        s[idx] matches ProofNode::Numbered(l) ==> (l.justification matches Some(j) ==> (j
            matches Justification::ForallIntro(be) ==> (find_numbered_line_spec(s, 0, be.0)
            matches Some(pl) ==> (pl.boxed_constant matches Some(bc) ==> (bc
            matches Term::Atomic(cn) ==> eigen_fresh(s, idx, cn@)))))),
{
    assert(line_ok(s, idx, allowed));
}

} // verus!
