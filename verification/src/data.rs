//! The algebraic data model: terms, formulas, justifications, proof nodes.

use vstd::prelude::*;

verus! {

/// A logical term: an atomic name (variable or constant, depending on the
/// configured allowed-variable set) or a function symbol applied to a
/// non-empty ordered sequence of sub-terms.
#[derive(PartialEq, Eq, Hash, Debug)]
pub enum Term {
    /// A variable or constant name.
    Atomic(String),
    /// A function application: function symbol and its arguments.
    FuncApp(String, Vec<Term>),
}

/// A logical sentence ("well-formed formula"). Each numbered proof line
/// carries one, unless the line only introduces a boxed constant.
#[derive(PartialEq, Debug)]
pub enum Wff {
    /// Conjunction of two or more conjuncts.
    And(Vec<Wff>),
    /// Disjunction of two or more disjuncts.
    Or(Vec<Wff>),
    /// Implication: antecedent and consequent.
    Implies(Box<Wff>, Box<Wff>),
    /// Biconditional.
    Bicond(Box<Wff>, Box<Wff>),
    /// Negation.
    Not(Box<Wff>),
    /// Bottom / contradiction.
    Bottom,
    /// Universal quantification: bound-variable name and body.
    Forall(String, Box<Wff>),
    /// Existential quantification: bound-variable name and body.
    Exists(String, Box<Wff>),
    /// A nullary predicate, for example `P`.
    Atomic(String),
    /// An n-ary predicate application for n >= 1.
    PredApp(String, Vec<Term>),
    /// The equality predicate applied to two terms.
    Equals(Term, Term),
}

/// The justification attached to an inference line: the rule used and the
/// line numbers (or subproof `(begin, end)` ranges) it cites.
#[derive(PartialEq, Debug)]
pub enum Justification {
    AndIntro(Vec<usize>),
    AndElim(usize),
    OrIntro(usize),
    OrElim(usize, Vec<(usize, usize)>),
    NotIntro((usize, usize)),
    NotElim(usize),
    BottomIntro(usize, usize),
    BottomElim(usize),
    ImpliesIntro((usize, usize)),
    ImpliesElim(usize, usize),
    BicondIntro((usize, usize), (usize, usize)),
    BicondElim(usize, usize),
    EqualsIntro,
    EqualsElim(usize, usize),
    ForallIntro((usize, usize)),
    ForallElim(usize),
    ExistsIntro(usize),
    ExistsElim(usize, (usize, usize)),
    Reit(usize),
}

/// A numbered proof line: a premise (no justification), an inference
/// (justification present), or a placeholder the user has not finished.
/// When the line introduces a boxed constant, that constant is stored too.
#[derive(PartialEq, Debug)]
pub struct NumberedLine {
    pub line_num: usize,
    pub depth: usize,
    pub sentence: Option<Wff>,
    pub justification: Option<Justification>,
    pub boxed_constant: Option<Term>,
}

impl NumberedLine {
    /// Whether this line introduces a boxed constant (an eigenvariable).
    pub fn introduces_boxed_constant(&self) -> (r: bool)
        ensures
            r == (self.boxed_constant is Some),
    {
        self.boxed_constant.is_some()
    }

    /// Whether this line is an inference, that is, carries a justification.
    pub fn is_inference(&self) -> (r: bool)
        ensures
            r == (self.justification is Some),
    {
        self.justification.is_some()
    }
}

/// One element of a Fitch proof in document order: a physical line, or a
/// synthetic marker for opening/closing a subproof.
#[derive(PartialEq, Debug)]
pub enum ProofNode {
    /// A numbered line (premise or inference); the only node with a line number.
    Numbered(NumberedLine),
    /// A Fitch bar (`| ---`) separating premises from the derivation body.
    FitchBar { depth: usize },
    /// An empty line containing only scope markers.
    Empty { depth: usize },
    /// Synthetic marker inserted where a subproof scope opens; it immediately
    /// precedes the numbered line serving as the subproof premise.
    SubproofOpen { depth: usize },
    /// Synthetic marker inserted where a subproof scope closes; it precedes
    /// the next textual node at the shallower depth.
    SubproofClose { depth: usize },
}

impl ProofNode {
    /// The indentation depth of this node (the outermost level is depth 1).
    pub open spec fn spec_depth(&self) -> usize {
        match self {
            ProofNode::Numbered(line) => line.depth,
            ProofNode::FitchBar { depth } => *depth,
            ProofNode::Empty { depth } => *depth,
            ProofNode::SubproofOpen { depth } => *depth,
            ProofNode::SubproofClose { depth } => *depth,
        }
    }

    /// The indentation depth of this node.
    pub fn depth(&self) -> (d: usize)
        ensures
            d == self.spec_depth(),
    {
        match self {
            ProofNode::Numbered(line) => line.depth,
            ProofNode::FitchBar { depth } => *depth,
            ProofNode::Empty { depth } => *depth,
            ProofNode::SubproofOpen { depth } => *depth,
            ProofNode::SubproofClose { depth } => *depth,
        }
    }

    /// The numbered line carried by this node, if any.
    pub fn as_numbered(&self) -> (r: Option<&NumberedLine>)
        ensures
            match self {
                ProofNode::Numbered(line) => r == Some(line),
                _ => r is None,
            },
    {
        if let ProofNode::Numbered(line) = self {
            Some(line)
        } else {
            None
        }
    }

    /// Whether this node is a Fitch bar.
    pub fn is_fitch_bar(&self) -> (r: bool)
        ensures
            r == (self is FitchBar),
    {
        matches!(self, ProofNode::FitchBar { .. })
    }

    /// Whether this node is a synthetic subproof-open or subproof-close marker.
    pub fn is_structural(&self) -> (r: bool)
        ensures
            r == (self is SubproofOpen || self is SubproofClose),
    {
        matches!(self, ProofNode::SubproofOpen { .. } | ProofNode::SubproofClose { .. })
    }
}

/// The overall verdict on a proof.
#[derive(PartialEq, Debug)]
pub enum ProofResult {
    /// No mistakes; the proof is correct.
    Correct,
    /// Per-line mistakes that still let the checker analyze the rest of the
    /// proof; all of them are collected here, in document order.
    Error(Vec<String>),
    /// A mistake so severe that no further analysis is possible; only this
    /// one message is reported.
    FatalError(String),
}

} // verus!
