//! Renumbering of proof lines: rewrites line numbers to 1, 2, 3, ... in
//! document order and updates every justification's citations accordingly.
//! A citation of a line number that does not exist becomes 0, the sentinel
//! for a dangling reference.

use vstd::prelude::*;
use crate::data::{Justification, ProofNode};
use crate::fitch::{line_numbers_ok, num_count};

verus! {

/// The line numbers of the numbered lines among the first `i` nodes of `s`,
/// in document order.
pub open spec fn line_nums(s: Seq<ProofNode>, i: int) -> Seq<usize>
    decreases i,
{
    if i <= 0 {
        Seq::empty()
    } else {
        line_nums(s, i - 1) + (match s[i - 1] {
            ProofNode::Numbered(l) => seq![l.line_num],
            _ => Seq::empty(),
        })
    }
}

/// The new number of a line that used to carry number `n`: one more than the
/// position of the last numbered line that carried `n`, or 0 when no line
/// carried `n`.
pub open spec fn remap_num(olds: Seq<usize>, n: usize) -> usize
    decreases olds.len(),
{
    if olds.len() == 0 {
        0
    } else if olds.last() == n {
        olds.len() as usize
    } else {
        remap_num(olds.drop_last(), n)
    }
}

/// Both components of a cited `(begin, end)` subproof range are remapped.
pub open spec fn pair_remapped(o: (usize, usize), n: (usize, usize), olds: Seq<usize>) -> bool {
    n.0 == remap_num(olds, o.0) && n.1 == remap_num(olds, o.1)
}

/// `n` is `o` with every cited line number remapped through `olds`.
pub open spec fn justification_remapped(o: Justification, n: Justification, olds: Seq<usize>) -> bool {
    match (o, n) {
        (Justification::AndIntro(a), Justification::AndIntro(b)) => b@.len() == a@.len()
            && forall|i: int| 0 <= i < a@.len() ==> b@[i] == remap_num(olds, #[trigger] a@[i]),
        (Justification::AndElim(a), Justification::AndElim(b)) => b == remap_num(olds, a),
        (Justification::OrIntro(a), Justification::OrIntro(b)) => b == remap_num(olds, a),
        (Justification::OrElim(a, asub), Justification::OrElim(b, bsub)) => b == remap_num(olds, a)
            && bsub@.len() == asub@.len() && forall|i: int|
            0 <= i < asub@.len() ==> pair_remapped(#[trigger] asub@[i], bsub@[i], olds),
        (Justification::NotIntro(ap), Justification::NotIntro(bp)) => pair_remapped(ap, bp, olds),
        (Justification::NotElim(a), Justification::NotElim(b)) => b == remap_num(olds, a),
        (Justification::BottomIntro(a1, a2), Justification::BottomIntro(b1, b2)) => b1 == remap_num(
            olds,
            a1,
        ) && b2 == remap_num(olds, a2),
        (Justification::BottomElim(a), Justification::BottomElim(b)) => b == remap_num(olds, a),
        (Justification::ImpliesIntro(ap), Justification::ImpliesIntro(bp)) => pair_remapped(
            ap,
            bp,
            olds,
        ),
        (Justification::ImpliesElim(a1, a2), Justification::ImpliesElim(b1, b2)) => b1 == remap_num(
            olds,
            a1,
        ) && b2 == remap_num(olds, a2),
        (Justification::BicondIntro(ap1, ap2), Justification::BicondIntro(bp1, bp2)) => pair_remapped(
            ap1,
            bp1,
            olds,
        ) && pair_remapped(ap2, bp2, olds),
        (Justification::BicondElim(a1, a2), Justification::BicondElim(b1, b2)) => b1 == remap_num(
            olds,
            a1,
        ) && b2 == remap_num(olds, a2),
        (Justification::EqualsIntro, Justification::EqualsIntro) => true,
        (Justification::EqualsElim(a1, a2), Justification::EqualsElim(b1, b2)) => b1 == remap_num(
            olds,
            a1,
        ) && b2 == remap_num(olds, a2),
        (Justification::ForallIntro(ap), Justification::ForallIntro(bp)) => pair_remapped(
            ap,
            bp,
            olds,
        ),
        (Justification::ForallElim(a), Justification::ForallElim(b)) => b == remap_num(olds, a),
        (Justification::ExistsIntro(a), Justification::ExistsIntro(b)) => b == remap_num(olds, a),
        (Justification::ExistsElim(a, ap), Justification::ExistsElim(b, bp)) => b == remap_num(
            olds,
            a,
        ) && pair_remapped(ap, bp, olds),
        (Justification::Reit(a), Justification::Reit(b)) => b == remap_num(olds, a),
        _ => false,
    }
}

/// Every line number cited by `j` is at most `bound` (0, the dangling
/// sentinel, is always allowed).
pub open spec fn justification_cites_ok(j: Justification, bound: int) -> bool {
    match j {
        Justification::AndIntro(a) => forall|i: int| 0 <= i < a@.len() ==> #[trigger] a@[i] <= bound,
        Justification::AndElim(a) => a <= bound,
        Justification::OrIntro(a) => a <= bound,
        Justification::OrElim(a, asub) => a <= bound && forall|i: int|
            0 <= i < asub@.len() ==> (#[trigger] asub@[i]).0 <= bound && asub@[i].1 <= bound,
        Justification::NotIntro(ap) => ap.0 <= bound && ap.1 <= bound,
        Justification::NotElim(a) => a <= bound,
        Justification::BottomIntro(a1, a2) => a1 <= bound && a2 <= bound,
        Justification::BottomElim(a) => a <= bound,
        Justification::ImpliesIntro(ap) => ap.0 <= bound && ap.1 <= bound,
        Justification::ImpliesElim(a1, a2) => a1 <= bound && a2 <= bound,
        Justification::BicondIntro(ap1, ap2) => ap1.0 <= bound && ap1.1 <= bound && ap2.0 <= bound
            && ap2.1 <= bound,
        Justification::BicondElim(a1, a2) => a1 <= bound && a2 <= bound,
        Justification::EqualsIntro => true,
        Justification::EqualsElim(a1, a2) => a1 <= bound && a2 <= bound,
        Justification::ForallIntro(ap) => ap.0 <= bound && ap.1 <= bound,
        Justification::ForallElim(a) => a <= bound,
        Justification::ExistsIntro(a) => a <= bound,
        Justification::ExistsElim(a, ap) => a <= bound && ap.0 <= bound && ap.1 <= bound,
        Justification::Reit(a) => a <= bound,
    }
}

/// How position `i` changes: a numbered line keeps its depth, sentence and
/// boxed constant, gets the line number that its position determines, and
/// has its justification's citations remapped; every other node is left
/// exactly as it was.
pub open spec fn node_renumbered(s0: Seq<ProofNode>, i: int, n: ProofNode) -> bool {
    match (s0[i], n) {
        (ProofNode::Numbered(lo), ProofNode::Numbered(ln)) => {
            &&& ln.line_num == num_count(s0, i) + 1
            &&& ln.depth == lo.depth
            &&& ln.sentence == lo.sentence
            &&& ln.boxed_constant == lo.boxed_constant
            &&& match (lo.justification, ln.justification) {
                (Option::None, Option::None) => true,
                (Option::Some(jo), Option::Some(jn)) => justification_remapped(
                    jo,
                    jn,
                    line_nums(s0, s0.len() as int),
                ),
                _ => false,
            }
        },
        _ => n == s0[i],
    }
}

/// A remapped citation never exceeds the count of numbered lines.
pub proof fn lemma_remap_num_le(olds: Seq<usize>, n: usize)
    ensures
        remap_num(olds, n) <= olds.len(),
    decreases olds.len(),
{
    if olds.len() > 0 && olds.last() != n {
        lemma_remap_num_le(olds.drop_last(), n);
    }
}

/// There are as many collected line numbers as numbered lines.
pub proof fn lemma_line_nums_len(s: Seq<ProofNode>, i: int)
    ensures
        line_nums(s, i).len() == if i >= 0 {
            num_count(s, i)
        } else {
            0int
        },
    decreases i,
{
    if i > 0 {
        lemma_line_nums_len(s, i - 1);
    }
}

/// Remapping a justification keeps every citation within the number of
/// numbered lines.
pub proof fn lemma_remapped_cites(o: Justification, n: Justification, olds: Seq<usize>)
    requires
        justification_remapped(o, n, olds),
    ensures
        justification_cites_ok(n, olds.len() as int),
{
    match (o, n) {
        (Justification::AndIntro(a), Justification::AndIntro(b)) => {
            assert forall|i: int| 0 <= i < b@.len() implies #[trigger] b@[i] <= olds.len() as int by {
                lemma_remap_num_le(olds, a@[i]);
            }
        },
        (Justification::AndElim(a), Justification::AndElim(b)) => {
            lemma_remap_num_le(olds, a);
        },
        (Justification::OrIntro(a), Justification::OrIntro(b)) => {
            lemma_remap_num_le(olds, a);
        },
        (Justification::OrElim(a, asub), Justification::OrElim(b, bsub)) => {
            lemma_remap_num_le(olds, a);
            assert forall|i: int|
                0 <= i < bsub@.len() implies (#[trigger] bsub@[i]).0 <= olds.len() as int
                && bsub@[i].1 <= olds.len() as int by {
                assert(pair_remapped(asub@[i], bsub@[i], olds));
                lemma_remap_num_le(olds, asub@[i].0);
                lemma_remap_num_le(olds, asub@[i].1);
            }
        },
        (Justification::NotIntro(ap), Justification::NotIntro(bp)) => {
            lemma_remap_num_le(olds, ap.0);
            lemma_remap_num_le(olds, ap.1);
        },
        (Justification::NotElim(a), Justification::NotElim(b)) => {
            lemma_remap_num_le(olds, a);
        },
        (Justification::BottomIntro(a1, a2), Justification::BottomIntro(b1, b2)) => {
            lemma_remap_num_le(olds, a1);
            lemma_remap_num_le(olds, a2);
        },
        (Justification::BottomElim(a), Justification::BottomElim(b)) => {
            lemma_remap_num_le(olds, a);
        },
        (Justification::ImpliesIntro(ap), Justification::ImpliesIntro(bp)) => {
            lemma_remap_num_le(olds, ap.0);
            lemma_remap_num_le(olds, ap.1);
        },
        (Justification::ImpliesElim(a1, a2), Justification::ImpliesElim(b1, b2)) => {
            lemma_remap_num_le(olds, a1);
            lemma_remap_num_le(olds, a2);
        },
        (Justification::BicondIntro(ap1, ap2), Justification::BicondIntro(bp1, bp2)) => {
            lemma_remap_num_le(olds, ap1.0);
            lemma_remap_num_le(olds, ap1.1);
            lemma_remap_num_le(olds, ap2.0);
            lemma_remap_num_le(olds, ap2.1);
        },
        (Justification::BicondElim(a1, a2), Justification::BicondElim(b1, b2)) => {
            lemma_remap_num_le(olds, a1);
            lemma_remap_num_le(olds, a2);
        },
        (Justification::EqualsElim(a1, a2), Justification::EqualsElim(b1, b2)) => {
            lemma_remap_num_le(olds, a1);
            lemma_remap_num_le(olds, a2);
        },
        (Justification::ForallIntro(ap), Justification::ForallIntro(bp)) => {
            lemma_remap_num_le(olds, ap.0);
            lemma_remap_num_le(olds, ap.1);
        },
        (Justification::ForallElim(a), Justification::ForallElim(b)) => {
            lemma_remap_num_le(olds, a);
        },
        (Justification::ExistsIntro(a), Justification::ExistsIntro(b)) => {
            lemma_remap_num_le(olds, a);
        },
        (Justification::ExistsElim(a, ap), Justification::ExistsElim(b, bp)) => {
            lemma_remap_num_le(olds, a);
            lemma_remap_num_le(olds, ap.0);
            lemma_remap_num_le(olds, ap.1);
        },
        (Justification::Reit(a), Justification::Reit(b)) => {
            lemma_remap_num_le(olds, a);
        },
        _ => {},
    }
}

/// Renumbering does not change which positions hold numbered lines.
pub proof fn lemma_num_count_preserved(s0: Seq<ProofNode>, s1: Seq<ProofNode>, i: int)
    requires
        s0.len() == s1.len(),
        forall|j: int| 0 <= j < s0.len() ==> node_renumbered(s0, j, #[trigger] s1[j]),
        0 <= i <= s0.len(),
    ensures
        num_count(s1, i) == num_count(s0, i),
    decreases i,
{
    if i > 0 {
        lemma_num_count_preserved(s0, s1, i - 1);
        assert(node_renumbered(s0, i - 1, s1[i - 1]));
    }
}

/// Looks up the new number of a line that used to carry number `n`.
fn remap_line_num(olds: &Vec<usize>, n: usize) -> (r: usize)
    ensures
        r == remap_num(olds@, n),
{
    let mut k: usize = olds.len();
    proof {
        assert(olds@.take(olds@.len() as int) =~= olds@);
    }
    while k > 0
        invariant
            k <= olds@.len(),
            remap_num(olds@, n) == remap_num(olds@.take(k as int), n),
        decreases k,
    {
        if olds[k - 1] == n {
            proof {
                assert(olds@.take(k as int).last() == olds@[k - 1]);
            }
            return k;
        }
        proof {
            assert(olds@.take(k as int).drop_last() =~= olds@.take(k - 1));
        }
        k = k - 1;
    }
    proof {
        assert(olds@.take(0).len() == 0);
    }
    0
}

/// Builds the justification that cites the remapped line numbers.
fn remap_justification(just: &Justification, olds: &Vec<usize>) -> (r: Justification)
    ensures
        justification_remapped(*just, r, olds@),
{
    match just {
        Justification::AndIntro(ns) => {
            let mut out: Vec<usize> = Vec::new();
            let mut i: usize = 0;
            while i < ns.len()
                invariant
                    i <= ns@.len(),
                    out@.len() == i,
                    forall|k: int| 0 <= k < i ==> out@[k] == remap_num(olds@, #[trigger] ns@[k]),
                decreases ns@.len() - i,
            {
                out.push(remap_line_num(olds, ns[i]));
                i = i + 1;
            }
            Justification::AndIntro(out)
        },
        Justification::AndElim(n) => Justification::AndElim(remap_line_num(olds, *n)),
        Justification::OrIntro(n) => Justification::OrIntro(remap_line_num(olds, *n)),
        Justification::OrElim(n, subs) => {
            let m = remap_line_num(olds, *n);
            let mut out: Vec<(usize, usize)> = Vec::new();
            let mut i: usize = 0;
            while i < subs.len()
                invariant
                    i <= subs@.len(),
                    out@.len() == i,
                    forall|k: int|
                        0 <= k < i ==> pair_remapped(#[trigger] subs@[k], out@[k], olds@),
                decreases subs@.len() - i,
            {
                let (a, b) = subs[i];
                out.push((remap_line_num(olds, a), remap_line_num(olds, b)));
                i = i + 1;
            }
            Justification::OrElim(m, out)
        },
        Justification::NotIntro((a, b)) => Justification::NotIntro(
            (remap_line_num(olds, *a), remap_line_num(olds, *b)),
        ),
        Justification::NotElim(n) => Justification::NotElim(remap_line_num(olds, *n)),
        Justification::BottomIntro(a, b) => Justification::BottomIntro(
            remap_line_num(olds, *a),
            remap_line_num(olds, *b),
        ),
        Justification::BottomElim(n) => Justification::BottomElim(remap_line_num(olds, *n)),
        Justification::ImpliesIntro((a, b)) => Justification::ImpliesIntro(
            (remap_line_num(olds, *a), remap_line_num(olds, *b)),
        ),
        Justification::ImpliesElim(a, b) => Justification::ImpliesElim(
            remap_line_num(olds, *a),
            remap_line_num(olds, *b),
        ),
        Justification::BicondIntro((a, b), (c, d)) => Justification::BicondIntro(
            (remap_line_num(olds, *a), remap_line_num(olds, *b)),
            (remap_line_num(olds, *c), remap_line_num(olds, *d)),
        ),
        Justification::BicondElim(a, b) => Justification::BicondElim(
            remap_line_num(olds, *a),
            remap_line_num(olds, *b),
        ),
        Justification::EqualsIntro => Justification::EqualsIntro,
        Justification::EqualsElim(a, b) => Justification::EqualsElim(
            remap_line_num(olds, *a),
            remap_line_num(olds, *b),
        ),
        Justification::ForallIntro((a, b)) => Justification::ForallIntro(
            (remap_line_num(olds, *a), remap_line_num(olds, *b)),
        ),
        Justification::ForallElim(n) => Justification::ForallElim(remap_line_num(olds, *n)),
        Justification::ExistsIntro(n) => Justification::ExistsIntro(remap_line_num(olds, *n)),
        Justification::ExistsElim(n, (a, b)) => Justification::ExistsElim(
            remap_line_num(olds, *n),
            (remap_line_num(olds, *a), remap_line_num(olds, *b)),
        ),
        Justification::Reit(n) => Justification::Reit(remap_line_num(olds, *n)),
    }
}

/// Rewrites the line numbers of `proof_nodes` to 1, 2, 3, ... in document
/// order and updates every justification's citations accordingly: a citation
/// of an old number is redirected to the new number of the last line that
/// carried it, and a citation of a number no line carried becomes 0.
///
/// Afterwards the numbered lines are numbered exactly 1..N and every
/// citation points to an existing line or to 0.
pub fn fix_line_numbers(proof_nodes: &mut Vec<ProofNode>)
    ensures
        final(proof_nodes)@.len() == old(proof_nodes)@.len(),
        forall|i: int|
            0 <= i < old(proof_nodes)@.len() ==> node_renumbered(
                old(proof_nodes)@,
                i,
                #[trigger] final(proof_nodes)@[i],
            ),
        line_numbers_ok(final(proof_nodes)@),
        forall|i: int|
            0 <= i < final(proof_nodes)@.len() ==> (#[trigger] final(proof_nodes)@[i]
                matches ProofNode::Numbered(l) ==> (l.justification matches Some(j)
                ==> justification_cites_ok(
                j,
                num_count(final(proof_nodes)@, final(proof_nodes)@.len() as int),
            ))),
{
    let ghost s0: Seq<ProofNode> = proof_nodes@;

    let mut olds: Vec<usize> = Vec::new();
    let mut i: usize = 0;
    while i < proof_nodes.len()
        invariant
            proof_nodes@ == s0,
            i <= s0.len(),
            olds@ == line_nums(s0, i as int),
        decreases s0.len() - i,
    {
        if let ProofNode::Numbered(line) = &proof_nodes[i] {
            olds.push(line.line_num);
            proof {
                assert(olds@ =~= line_nums(s0, i + 1));
            }
        } else {
            proof {
                assert(olds@ =~= line_nums(s0, i + 1));
            }
        }
        i = i + 1;
    }

    let mut count: usize = 0;
    let mut k: usize = 0;
    while k < proof_nodes.len()
        invariant
            proof_nodes@.len() == s0.len(),
            k <= s0.len(),
            count == num_count(s0, k as int),
            count <= k,
            forall|j: int| k <= j < s0.len() ==> #[trigger] proof_nodes@[j] == s0[j],
            forall|j: int|
                0 <= j < k ==> renumber_pass_done(s0, j, #[trigger] proof_nodes@[j]),
        decreases s0.len() - k,
    {
        let is_numbered = matches!(&proof_nodes[k], ProofNode::Numbered(_));
        if is_numbered {
            let node = proof_nodes.remove(k);
            if let ProofNode::Numbered(mut line) = node {
                line.line_num = count + 1;
                proof_nodes.insert(k, ProofNode::Numbered(line));
            } else {
                proof {
                    assert(false);
                }
                proof_nodes.insert(k, node);
            }
            count = count + 1;
        }
        k = k + 1;
    }

    let ghost s1: Seq<ProofNode> = proof_nodes@;

    let mut m: usize = 0;
    while m < proof_nodes.len()
        invariant
            olds@ == line_nums(s0, s0.len() as int),
            proof_nodes@.len() == s1.len(),
            s1.len() == s0.len(),
            m <= s1.len(),
            forall|j: int| 0 <= j < s0.len() ==> renumber_pass_done(s0, j, #[trigger] s1[j]),
            forall|j: int| m <= j < s1.len() ==> #[trigger] proof_nodes@[j] == s1[j],
            forall|j: int|
                0 <= j < m ==> node_renumbered(s0, j, #[trigger] proof_nodes@[j]),
        decreases s1.len() - m,
    {
        let needs_remap = match &proof_nodes[m] {
            ProofNode::Numbered(line) => line.justification.is_some(),
            _ => false,
        };
        if needs_remap {
            let node = proof_nodes.remove(m);
            if let ProofNode::Numbered(mut line) = node {
                let just = match &line.justification {
                    Some(j) => remap_justification(j, &olds),
                    None => {
                        proof {
                            assert(false);
                        }
                        Justification::EqualsIntro
                    },
                };
                line.justification = Some(just);
                proof_nodes.insert(m, ProofNode::Numbered(line));
            } else {
                proof {
                    assert(false);
                }
                proof_nodes.insert(m, node);
            }
        }
        m = m + 1;
    }

    proof {
        let s2 = proof_nodes@;
        lemma_line_nums_len(s0, s0.len() as int);
        assert forall|i2: int|
            0 <= i2 < s2.len() implies ((#[trigger] s2[i2]) matches ProofNode::Numbered(l)
            ==> l.line_num == num_count(s2, i2) + 1) by {
            if s2[i2] is Numbered {
                assert(node_renumbered(s0, i2, s2[i2]));
                lemma_num_count_preserved(s0, s2, i2);
            }
        }
        assert forall|i2: int|
            0 <= i2 < s2.len() implies ((#[trigger] s2[i2]) matches ProofNode::Numbered(l) ==> (
            l.justification matches Some(j) ==> justification_cites_ok(
                j,
                num_count(s2, s2.len() as int),
            ))) by {
            if s2[i2] is Numbered {
                assert(node_renumbered(s0, i2, s2[i2]));
                match (s0[i2], s2[i2]) {
                    (ProofNode::Numbered(lo), ProofNode::Numbered(ln)) => {
                        match (lo.justification, ln.justification) {
                            (Option::Some(jo), Option::Some(jn)) => {
                                lemma_remapped_cites(jo, jn, line_nums(s0, s0.len() as int));
                                lemma_num_count_preserved(s0, s2, s0.len() as int);
                            },
                            _ => {},
                        }
                    },
                    _ => {},
                }
            }
        }
    }
}

/// The state of a node after the renumbering pass and before the citation
/// pass: numbers fixed, justifications untouched.
pub open spec fn renumber_pass_done(s0: Seq<ProofNode>, i: int, n: ProofNode) -> bool {
    match (s0[i], n) {
        (ProofNode::Numbered(lo), ProofNode::Numbered(ln)) => {
            &&& ln.line_num == num_count(s0, i) + 1
            &&& ln.depth == lo.depth
            &&& ln.sentence == lo.sentence
            &&& ln.boxed_constant == lo.boxed_constant
            &&& ln.justification == lo.justification
        },
        _ => n == s0[i],
    }
}

} // verus!
