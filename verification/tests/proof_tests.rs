use fitch_proof::check;
use fitch_proof::data::{Justification, NumberedLine, ProofNode, ProofResult, Term, Wff};
use fitch_proof::fitch::Proof;
use fitch_proof::fix_line_numbers;

fn atom(name: &str) -> Wff {
    Wff::Atomic(name.to_string())
}

fn var(name: &str) -> Term {
    Term::Atomic(name.to_string())
}

fn pred1(name: &str, arg: &str) -> Wff {
    Wff::PredApp(name.to_string(), vec![var(arg)])
}

fn forall_w(v: &str, body: Wff) -> Wff {
    Wff::Forall(v.to_string(), Box::new(body))
}

fn exists_w(v: &str, body: Wff) -> Wff {
    Wff::Exists(v.to_string(), Box::new(body))
}

fn and2(a: Wff, b: Wff) -> Wff {
    Wff::And(vec![a, b])
}

fn or2(a: Wff, b: Wff) -> Wff {
    Wff::Or(vec![a, b])
}

fn implies(a: Wff, b: Wff) -> Wff {
    Wff::Implies(Box::new(a), Box::new(b))
}

fn bicond(a: Wff, b: Wff) -> Wff {
    Wff::Bicond(Box::new(a), Box::new(b))
}

fn not(a: Wff) -> Wff {
    Wff::Not(Box::new(a))
}

fn num(line_num: usize, depth: usize, sentence: Wff, justification: Option<Justification>) -> ProofNode {
    ProofNode::Numbered(NumberedLine {
        line_num,
        depth,
        sentence: Some(sentence),
        justification,
        boxed_constant: None,
    })
}

fn boxed_premise(line_num: usize, depth: usize, constant: &str) -> ProofNode {
    ProofNode::Numbered(NumberedLine {
        line_num,
        depth,
        sentence: None,
        justification: None,
        boxed_constant: Some(var(constant)),
    })
}

fn boxed_premise_with(line_num: usize, depth: usize, constant: &str, sentence: Wff) -> ProofNode {
    ProofNode::Numbered(NumberedLine {
        line_num,
        depth,
        sentence: Some(sentence),
        justification: None,
        boxed_constant: Some(var(constant)),
    })
}

fn bar(depth: usize) -> ProofNode {
    ProofNode::FitchBar { depth }
}

fn vars() -> Vec<String> {
    vec!["x", "y", "z", "u", "v", "w"].into_iter().map(|s| s.to_string()).collect()
}

fn assert_correct(r: ProofResult) {
    match r {
        ProofResult::Correct => {},
        ProofResult::Error(es) => panic!("expected Correct, got errors: {:?}", es),
        ProofResult::FatalError(e) => panic!("expected Correct, got fatal error: {}", e),
    }
}

fn expect_errors(r: ProofResult) -> Vec<String> {
    match r {
        ProofResult::Error(es) => es,
        ProofResult::Correct => panic!("expected errors, got Correct"),
        ProofResult::FatalError(e) => panic!("expected errors, got fatal error: {}", e),
    }
}

fn expect_fatal(r: ProofResult) -> String {
    match r {
        ProofResult::FatalError(e) => e,
        ProofResult::Correct => panic!("expected a fatal error, got Correct"),
        ProofResult::Error(es) => panic!("expected a fatal error, got errors: {:?}", es),
    }
}

#[test]
fn and_elim_correct() {
    // Premise P∧Q at line 1; P at line 2 by AndElim(1).
    let nodes = vec![
        num(1, 1, and2(atom("P"), atom("Q")), None),
        bar(1),
        num(2, 1, atom("P"), Some(Justification::AndElim(1))),
    ];
    assert_correct(check(nodes, vars()));
}

#[test]
fn and_elim_second_conjunct_correct() {
    let nodes = vec![
        num(1, 1, and2(atom("P"), atom("Q")), None),
        bar(1),
        num(2, 1, atom("Q"), Some(Justification::AndElim(1))),
    ];
    assert_correct(check(nodes, vars()));
}

#[test]
fn and_elim_wrong_conclusion_rejected() {
    let nodes = vec![
        num(1, 1, and2(atom("P"), atom("Q")), None),
        bar(1),
        num(2, 1, atom("R"), Some(Justification::AndElim(1))),
    ];
    let es = expect_errors(check(nodes, vars()));
    assert_eq!(es.len(), 1);
    assert!(es[0].starts_with("on line 2:"));
}

#[test]
fn implies_elim_correct() {
    // Premises P→Q and P; conclusion Q by ImpliesElim(1,2).
    let nodes = vec![
        num(1, 1, implies(atom("P"), atom("Q")), None),
        num(2, 1, atom("P"), None),
        bar(1),
        num(3, 1, atom("Q"), Some(Justification::ImpliesElim(1, 2))),
    ];
    assert_correct(check(nodes, vars()));
}

#[test]
fn implies_intro_with_subproof_correct() {
    // A subproof at depth 2 assumes P (line 2), reiterates it (line 3),
    // and line 4 concludes P→P by ImpliesIntro(2-3).
    let nodes = vec![
        num(1, 1, atom("Q"), None),
        bar(1),
        num(2, 2, atom("P"), None),
        bar(2),
        num(3, 2, atom("P"), Some(Justification::Reit(2))),
        num(4, 1, implies(atom("P"), atom("P")), Some(Justification::ImpliesIntro((2, 3)))),
    ];
    assert_correct(check(nodes, vars()));
}

#[test]
fn forall_elim_correct() {
    // Line 1 premise ∀x.P(x); line 2 P(a) by ForallElim(1).
    let nodes = vec![
        num(1, 1, forall_w("x", pred1("P", "x")), None),
        bar(1),
        num(2, 1, pred1("P", "a"), Some(Justification::ForallElim(1))),
    ];
    assert_correct(check(nodes, vars()));
}

#[test]
fn forall_elim_wrong_instance_rejected() {
    // P(a)∧P(b) is not an instantiation of ∀x.P(x) by a single term.
    let nodes = vec![
        num(1, 1, forall_w("x", and2(pred1("P", "x"), pred1("Q", "x"))), None),
        bar(1),
        num(
            2,
            1,
            and2(pred1("P", "a"), pred1("Q", "b")),
            Some(Justification::ForallElim(1)),
        ),
    ];
    let es = expect_errors(check(nodes, vars()));
    assert_eq!(es.len(), 1);
    assert!(es[0].starts_with("on line 2:"));
}

#[test]
fn forall_elim_consistent_instance_correct() {
    let nodes = vec![
        num(1, 1, forall_w("x", and2(pred1("P", "x"), pred1("Q", "x"))), None),
        bar(1),
        num(
            2,
            1,
            and2(pred1("P", "a"), pred1("Q", "a")),
            Some(Justification::ForallElim(1)),
        ),
    ];
    assert_correct(check(nodes, vars()));
}

#[test]
fn reit_requires_syntactic_equality() {
    // Line 1 ∀x.P(x); line 2 P(y) by Reit(1): error on line 2.
    let nodes = vec![
        num(1, 1, forall_w("x", pred1("P", "x")), None),
        bar(1),
        num(2, 1, pred1("P", "y"), Some(Justification::Reit(1))),
    ];
    let es = expect_errors(check(nodes, vars()));
    assert_eq!(es.len(), 1);
    assert!(es[0].starts_with("on line 2:"));
}

#[test]
fn reit_rejects_alpha_variant() {
    // ∀y.P(y) is alpha-equivalent to ∀x.P(x) but Reit demands syntactic
    // equality.
    let nodes = vec![
        num(1, 1, forall_w("x", pred1("P", "x")), None),
        bar(1),
        num(2, 1, forall_w("y", pred1("P", "y")), Some(Justification::Reit(1))),
    ];
    let es = expect_errors(check(nodes, vars()));
    assert_eq!(es.len(), 1);
    assert!(es[0].starts_with("on line 2:"));
}

#[test]
fn or_elim_accepts_alpha_equivalent_conclusion() {
    // The case subproofs conclude ∀x.R(x); the conclusion ∀y.R(y) is
    // alpha-equivalent, which OrElim accepts.
    let nodes = vec![
        num(1, 1, or2(atom("P"), atom("Q")), None),
        num(2, 1, forall_w("x", pred1("R", "x")), None),
        bar(1),
        num(3, 2, atom("P"), None),
        bar(2),
        num(4, 2, forall_w("x", pred1("R", "x")), Some(Justification::Reit(2))),
        ProofNode::Empty { depth: 1 },
        num(5, 2, atom("Q"), None),
        bar(2),
        num(6, 2, forall_w("x", pred1("R", "x")), Some(Justification::Reit(2))),
        num(
            7,
            1,
            forall_w("y", pred1("R", "y")),
            Some(Justification::OrElim(1, vec![(3, 4), (5, 6)])),
        ),
    ];
    assert_correct(check(nodes, vars()));
}

#[test]
fn eigenvariable_must_be_fresh() {
    // The boxed constant a occurs free in the enclosing premise P(a), so
    // the universal introduction is rejected.
    let nodes = vec![
        num(1, 1, pred1("P", "a"), None),
        bar(1),
        boxed_premise(2, 2, "a"),
        bar(2),
        num(3, 2, pred1("P", "a"), Some(Justification::Reit(1))),
        num(
            4,
            1,
            forall_w("x", pred1("P", "x")),
            Some(Justification::ForallIntro((2, 3))),
        ),
    ];
    let es = expect_errors(check(nodes, vars()));
    assert_eq!(es.len(), 1);
    assert!(es[0].starts_with("on line 4:"));
}

#[test]
fn forall_intro_with_fresh_constant_correct() {
    let nodes = vec![
        num(1, 1, forall_w("x", pred1("P", "x")), None),
        bar(1),
        boxed_premise(2, 2, "a"),
        bar(2),
        num(3, 2, pred1("P", "a"), Some(Justification::ForallElim(1))),
        num(
            4,
            1,
            forall_w("x", pred1("P", "x")),
            Some(Justification::ForallIntro((2, 3))),
        ),
    ];
    assert_correct(check(nodes, vars()));
}

#[test]
fn citation_from_closed_subproof_rejected() {
    // Line 4 cites line 2, which sits inside a subproof that has already
    // closed: out of scope.
    let nodes = vec![
        num(1, 1, atom("Q"), None),
        bar(1),
        num(2, 2, atom("P"), None),
        bar(2),
        num(3, 2, atom("P"), Some(Justification::Reit(2))),
        num(4, 1, atom("P"), Some(Justification::Reit(2))),
    ];
    let es = expect_errors(check(nodes, vars()));
    assert_eq!(es.len(), 1);
    assert!(es[0].starts_with("on line 4:"));
}

#[test]
fn bottom_intro_and_elim_correct() {
    let nodes = vec![
        num(1, 1, atom("P"), None),
        num(2, 1, not(atom("P")), None),
        bar(1),
        num(3, 1, Wff::Bottom, Some(Justification::BottomIntro(1, 2))),
        num(4, 1, atom("R"), Some(Justification::BottomElim(3))),
    ];
    assert_correct(check(nodes, vars()));
}

#[test]
fn not_elim_correct() {
    let nodes = vec![
        num(1, 1, not(not(atom("P"))), None),
        bar(1),
        num(2, 1, atom("P"), Some(Justification::NotElim(1))),
    ];
    assert_correct(check(nodes, vars()));
}

#[test]
fn not_intro_correct() {
    let nodes = vec![
        num(1, 1, not(atom("P")), None),
        bar(1),
        num(2, 2, atom("P"), None),
        bar(2),
        num(3, 2, Wff::Bottom, Some(Justification::BottomIntro(2, 1))),
        num(4, 1, not(atom("P")), Some(Justification::NotIntro((2, 3)))),
    ];
    assert_correct(check(nodes, vars()));
}

#[test]
fn or_intro_correct() {
    let nodes = vec![
        num(1, 1, atom("P"), None),
        bar(1),
        num(2, 1, or2(atom("Q"), atom("P")), Some(Justification::OrIntro(1))),
    ];
    assert_correct(check(nodes, vars()));
}

#[test]
fn bicond_intro_and_elim_correct() {
    let nodes = vec![
        num(1, 1, atom("P"), None),
        num(2, 1, atom("Q"), None),
        bar(1),
        num(3, 2, atom("P"), None),
        bar(2),
        num(4, 2, atom("Q"), Some(Justification::Reit(2))),
        ProofNode::Empty { depth: 1 },
        num(5, 2, atom("Q"), None),
        bar(2),
        num(6, 2, atom("P"), Some(Justification::Reit(1))),
        num(
            7,
            1,
            bicond(atom("P"), atom("Q")),
            Some(Justification::BicondIntro((3, 4), (5, 6))),
        ),
        num(8, 1, atom("Q"), Some(Justification::BicondElim(7, 1))),
    ];
    assert_correct(check(nodes, vars()));
}

#[test]
fn equals_intro_correct_and_rejected() {
    let good = vec![
        bar(1),
        num(
            1,
            1,
            Wff::Equals(var("a"), var("a")),
            Some(Justification::EqualsIntro),
        ),
    ];
    assert_correct(check(good, vars()));

    let bad = vec![
        bar(1),
        num(
            1,
            1,
            Wff::Equals(var("a"), var("b")),
            Some(Justification::EqualsIntro),
        ),
    ];
    let es = expect_errors(check(bad, vars()));
    assert_eq!(es.len(), 1);
    assert!(es[0].starts_with("on line 1:"));
}

#[test]
fn equals_elim_correct() {
    let nodes = vec![
        num(1, 1, Wff::Equals(var("a"), var("b")), None),
        num(2, 1, pred1("P", "a"), None),
        bar(1),
        num(3, 1, pred1("P", "b"), Some(Justification::EqualsElim(1, 2))),
    ];
    assert_correct(check(nodes, vars()));
}

#[test]
fn equals_elim_partial_replacement_correct() {
    // Only one of the two occurrences of a is replaced.
    let nodes = vec![
        num(1, 1, Wff::Equals(var("a"), var("b")), None),
        num(
            2,
            1,
            and2(pred1("P", "a"), pred1("Q", "a")),
            None,
        ),
        bar(1),
        num(
            3,
            1,
            and2(pred1("P", "b"), pred1("Q", "a")),
            Some(Justification::EqualsElim(1, 2)),
        ),
    ];
    assert_correct(check(nodes, vars()));
}

#[test]
fn exists_intro_correct() {
    let nodes = vec![
        num(1, 1, pred1("P", "a"), None),
        bar(1),
        num(2, 1, exists_w("x", pred1("P", "x")), Some(Justification::ExistsIntro(1))),
    ];
    assert_correct(check(nodes, vars()));
}

#[test]
fn exists_elim_correct() {
    let nodes = vec![
        num(1, 1, exists_w("x", pred1("P", "x")), None),
        bar(1),
        boxed_premise_with(2, 2, "a", pred1("P", "a")),
        bar(2),
        num(3, 2, exists_w("x", pred1("P", "x")), Some(Justification::ExistsIntro(2))),
        num(
            4,
            1,
            exists_w("x", pred1("P", "x")),
            Some(Justification::ExistsElim(1, (2, 3))),
        ),
    ];
    assert_correct(check(nodes, vars()));
}

#[test]
fn and_intro_order_matters() {
    let good = vec![
        num(1, 1, atom("P"), None),
        num(2, 1, atom("Q"), None),
        bar(1),
        num(
            3,
            1,
            and2(atom("P"), atom("Q")),
            Some(Justification::AndIntro(vec![1, 2])),
        ),
    ];
    assert_correct(check(good, vars()));

    let bad = vec![
        num(1, 1, atom("P"), None),
        num(2, 1, atom("Q"), None),
        bar(1),
        num(
            3,
            1,
            and2(atom("Q"), atom("P")),
            Some(Justification::AndIntro(vec![1, 2])),
        ),
    ];
    let es = expect_errors(check(bad, vars()));
    assert_eq!(es.len(), 1);
    assert!(es[0].starts_with("on line 3:"));
}

#[test]
fn normalizer_rejects_structured_input() {
    // A node list that already carries structural markers fails fatally.
    let nodes = vec![
        ProofNode::SubproofOpen { depth: 2 },
        num(1, 2, atom("P"), None),
    ];
    assert!(Proof::normalize_nodes(nodes).is_err());

    let nodes2 = vec![
        num(1, 1, atom("P"), None),
        ProofNode::SubproofClose { depth: 2 },
    ];
    let e = expect_fatal(check(nodes2, vars()));
    assert!(e.contains("structural markers"));
}

#[test]
fn normalizer_rejects_depth_jump() {
    let nodes = vec![
        num(1, 1, atom("P"), None),
        bar(1),
        num(2, 3, atom("Q"), None),
    ];
    let e = expect_fatal(check(nodes, vars()));
    assert!(e.contains("near line 2"));
}

#[test]
fn empty_proof_is_fatal() {
    let nodes = vec![ProofNode::Empty { depth: 1 }];
    let e = expect_fatal(check(nodes, vars()));
    assert!(e.contains("empty"));
}

#[test]
fn proof_ending_with_fitch_bar_is_fatal() {
    let nodes = vec![num(1, 1, atom("P"), None), bar(1)];
    let e = expect_fatal(check(nodes, vars()));
    assert!(e.contains("Fitch bar"));
}

#[test]
fn wrong_line_numbering_is_fatal() {
    let nodes = vec![
        num(1, 1, atom("P"), None),
        bar(1),
        num(3, 1, atom("P"), Some(Justification::Reit(1))),
    ];
    let e = expect_fatal(check(nodes, vars()));
    assert!(e.contains("Line numbers"));
}

#[test]
fn missing_justification_is_an_error() {
    let nodes = vec![
        num(1, 1, atom("P"), None),
        bar(1),
        num(2, 1, atom("P"), None),
    ];
    let es = expect_errors(check(nodes, vars()));
    assert_eq!(es.len(), 1);
    assert!(es[0].starts_with("on line 2:"));
}

#[test]
fn scope_entries_stay_below_their_line() {
    // Scope monotonicity on a concrete proof: every visible line number is
    // strictly below the line that may cite it.
    let nodes = vec![
        num(1, 1, implies(atom("P"), atom("Q")), None),
        num(2, 1, atom("P"), None),
        bar(1),
        num(3, 1, atom("Q"), Some(Justification::ImpliesElim(1, 2))),
    ];
    let p = Proof::construct(nodes, vars()).unwrap();
    for (n, entry) in p.scope.iter().enumerate() {
        for visible in entry.0.iter() {
            assert!(*visible < n);
        }
        for (_, end) in entry.1.iter() {
            assert!(*end < n);
        }
    }
    assert_eq!(p.scope[3].0, vec![2, 1]);

    // The same bounds on a proof with a closed subproof citation.
    let nodes = vec![
        num(1, 1, atom("Q"), None),
        bar(1),
        num(2, 2, atom("P"), None),
        bar(2),
        num(3, 2, atom("P"), Some(Justification::Reit(2))),
        num(4, 1, implies(atom("P"), atom("P")), Some(Justification::ImpliesIntro((2, 3)))),
    ];
    let p = Proof::construct(nodes, vars()).unwrap();
    assert_eq!(p.scope[4].1, vec![(2, 3)]);
    for (n, entry) in p.scope.iter().enumerate() {
        for visible in entry.0.iter() {
            assert!(*visible < n);
        }
        for (_, end) in entry.1.iter() {
            assert!(*end < n);
        }
    }
}

#[test]
fn fix_line_numbers_renumbers_and_remaps() {
    // Lines numbered 2, 5, 9 become 1, 2, 3; a citation of 5 is redirected
    // to 2 and a citation of the absent 7 becomes the 0 sentinel.
    let mut nodes = vec![
        num(2, 1, atom("P"), None),
        num(5, 1, atom("Q"), None),
        bar(1),
        num(9, 1, atom("Q"), Some(Justification::ImpliesElim(5, 7))),
    ];
    fix_line_numbers(&mut nodes);
    let nums: Vec<usize> = nodes
        .iter()
        .filter_map(|n| n.as_numbered())
        .map(|l| l.line_num)
        .collect();
    assert_eq!(nums, vec![1, 2, 3]);
    match &nodes[3] {
        ProofNode::Numbered(l) => match &l.justification {
            Some(Justification::ImpliesElim(a, b)) => {
                assert_eq!(*a, 2);
                assert_eq!(*b, 0);
            },
            other => panic!("unexpected justification: {:?}", other),
        },
        other => panic!("unexpected node: {:?}", other),
    }
}

#[test]
fn fix_line_numbers_keeps_correct_numbering() {
    let mut nodes = vec![
        num(1, 1, atom("P"), None),
        bar(1),
        num(2, 1, atom("P"), Some(Justification::Reit(1))),
    ];
    fix_line_numbers(&mut nodes);
    match &nodes[2] {
        ProofNode::Numbered(l) => {
            assert_eq!(l.line_num, 2);
            assert_eq!(l.justification, Some(Justification::Reit(1)));
        },
        other => panic!("unexpected node: {:?}", other),
    }
}

#[test]
fn alpha_equivalence_of_quantified_formulas() {
    let a = forall_w("x", pred1("P", "x"));
    let b = forall_w("y", pred1("P", "y"));
    let c = forall_w("y", pred1("Q", "y"));
    assert!(fitch_proof::subst::alpha_equiv(&a, &b));
    assert!(!fitch_proof::subst::alpha_equiv(&a, &c));
    assert!(!fitch_proof::subst::wff_eq_exec(&a, &b));
}

#[test]
fn fresh_for_and_is_variable() {
    let f = forall_w("x", and2(pred1("P", "x"), pred1("Q", "a")));
    assert!(fitch_proof::subst::fresh_for(&"x".to_string(), &f));
    assert!(!fitch_proof::subst::fresh_for(&"a".to_string(), &f));
    assert!(fitch_proof::subst::is_variable(&"x".to_string(), &vars()));
    assert!(!fitch_proof::subst::is_variable(&"a".to_string(), &vars()));
}

#[test]
fn matches_after_replacing_some_occurrences() {
    let a = var("a");
    let b = var("b");
    let from = and2(pred1("P", "a"), pred1("Q", "a"));
    let to_partial = and2(pred1("P", "b"), pred1("Q", "a"));
    let to_full = and2(pred1("P", "b"), pred1("Q", "b"));
    let to_other = and2(pred1("P", "b"), pred1("Q", "c"));
    assert!(fitch_proof::subst::matches_after_replacing(&from, &to_partial, &a, &b));
    assert!(fitch_proof::subst::matches_after_replacing(&from, &to_full, &a, &b));
    assert!(!fitch_proof::subst::matches_after_replacing(&from, &to_other, &a, &b));
}

#[test]
fn node_accessors() {
    let n = num(4, 2, atom("P"), Some(Justification::Reit(1)));
    assert_eq!(n.depth(), 2);
    assert!(!n.is_fitch_bar());
    assert!(!n.is_structural());
    let line = n.as_numbered().unwrap();
    assert!(line.is_inference());
    assert!(!line.introduces_boxed_constant());
    assert!(bar(3).is_fitch_bar());
    assert!(ProofNode::SubproofOpen { depth: 2 }.is_structural());
    assert_eq!(ProofNode::Empty { depth: 5 }.depth(), 5);
}

#[test]
fn proof_accessors() {
    let nodes = vec![
        num(1, 1, atom("P"), None),
        bar(1),
        num(2, 1, atom("P"), Some(Justification::Reit(1))),
    ];
    let p = Proof::construct(nodes, vars()).unwrap();
    assert_eq!(p.nodes().len(), 3);
    let lines = p.numbered_lines();
    assert_eq!(lines.len(), 2);
    assert_eq!(lines[0].line_num, 1);
    assert_eq!(p.find_numbered_line(2).unwrap().line_num, 2);
    assert!(p.find_numbered_line(7).is_none());
    assert_eq!(p.last_numbered_line().unwrap().line_num, 2);
}

#[test]
fn boxed_constant_only_in_subproof_premise() {
    // A boxed constant on a line that is not a subproof premise is refused
    // by the structural validator.
    let nodes = vec![
        num(1, 1, atom("P"), None),
        bar(1),
        num(2, 1, atom("P"), Some(Justification::Reit(1))),
        boxed_premise(3, 1, "a"),
    ];
    expect_fatal(check(nodes, vars()));
}

#[test]
fn free_vars_collects_free_names() {
    let f = forall_w("x", and2(pred1("P", "x"), pred1("Q", "a")));
    let fv = fitch_proof::subst::free_vars(&f);
    assert!(fv.iter().any(|s| s == "a"));
    assert!(!fv.iter().any(|s| s == "x"));
    let g = and2(pred1("P", "x"), pred1("Q", "a"));
    let gv = fitch_proof::subst::free_vars(&g);
    assert!(gv.iter().any(|s| s == "x"));
    assert!(gv.iter().any(|s| s == "a"));
}
