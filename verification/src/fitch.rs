//! Construction of a [`Proof`]: normalization of the raw node list,
//! the structural (half-well-formedness) validator, and the scope analyzer.

use vstd::prelude::*;
use vstd::string::StringExecFns;
use crate::data::{NumberedLine, ProofNode};

verus! {

/// Scoping information: for every line number `i` that is an inference,
/// `scope[i].0` lists the line numbers that line `i` may cite and
/// `scope[i].1` lists the closed subproofs (as `(begin, end)` pairs) that
/// line `i` may cite. Index 0 is unused.
pub type Scope = Vec<(Vec<usize>, Vec<(usize, usize)>)>;

/// A Fitch proof after normalization: the node sequence with explicit
/// subproof markers, its computed [`Scope`], and the set of names that are
/// treated as variables (every other atomic name is a constant).
///
/// A `Proof` is always built with [`Proof::construct`]; a constructed value
/// is half-well-structured and is then consumed read-only by the verifier.
pub struct Proof {
    /// The normalized sequence of proof nodes.
    pub nodes: Vec<ProofNode>,
    /// Which lines and closed subproofs each inference line may cite.
    pub scope: Scope,
    /// The names that count as variables.
    pub allowed_variable_names: Vec<String>,
}

/// The character for the decimal digit `d`.
pub open spec fn digit_char(d: int) -> char {
    if d == 0 {
        '0'
    } else if d == 1 {
        '1'
    } else if d == 2 {
        '2'
    } else if d == 3 {
        '3'
    } else if d == 4 {
        '4'
    } else if d == 5 {
        '5'
    } else if d == 6 {
        '6'
    } else if d == 7 {
        '7'
    } else if d == 8 {
        '8'
    } else {
        '9'
    }
}

/// The decimal rendering of `n`, most significant digit first.
pub open spec fn dec_digits(n: int) -> Seq<char>
    decreases n,
{
    if n < 10 {
        seq![digit_char(n)]
    } else {
        dec_digits(n / 10).push(digit_char(n % 10))
    }
}

/// The string for the decimal digit `d`.
fn digit_str(d: usize) -> (r: &'static str)
    requires
        d < 10,
    ensures
        r@ == seq![digit_char(d as int)],
{
    proof {
        reveal_strlit("0");
        reveal_strlit("1");
        reveal_strlit("2");
        reveal_strlit("3");
        reveal_strlit("4");
        reveal_strlit("5");
        reveal_strlit("6");
        reveal_strlit("7");
        reveal_strlit("8");
        reveal_strlit("9");
    }
    match d {
        0 => "0",
        1 => "1",
        2 => "2",
        3 => "3",
        4 => "4",
        5 => "5",
        6 => "6",
        7 => "7",
        8 => "8",
        _ => "9",
    }
}

/// Renders `n` in decimal; used to put line numbers into error messages.
pub(crate) fn usize_to_string(n: usize) -> (r: String)
    ensures
        r@ == dec_digits(n as int),
    decreases n,
{
    if n < 10 {
        digit_str(n).to_owned()
    } else {
        assert(n / 10 < n) by (nonlinear_arith)
            requires n >= 10,
        ;
        let r = usize_to_string(n / 10).concat(digit_str(n % 10));
        proof {
            assert(r@ =~= dec_digits(n as int));
        }
        r
    }
}

/// The result of inserting subproof markers into `raw` from position `i`
/// onward, where the previous meaningful depth was `prev_depth`: `None` when
/// a depth jump larger than one occurs or when `raw` itself already holds a
/// structural marker, otherwise the normalized tail.
pub open spec fn normalize_from(raw: Seq<ProofNode>, i: int, prev_depth: int) -> Option<
    Seq<ProofNode>,
>
    decreases raw.len() - i,
{
    if i < 0 || i >= raw.len() {
        Some(Seq::empty())
    } else if raw[i] is SubproofOpen || raw[i] is SubproofClose {
        None
    } else {
        let d = raw[i].spec_depth() as int;
        if d == prev_depth + 1 || d + 1 == prev_depth || d == prev_depth {
            let prefix: Seq<ProofNode> = if d == prev_depth + 1 {
                seq![ProofNode::SubproofOpen { depth: raw[i].spec_depth() }]
            } else if d + 1 == prev_depth {
                seq![ProofNode::SubproofClose { depth: prev_depth as usize }]
            } else {
                Seq::empty()
            };
            match normalize_from(raw, i + 1, d) {
                Some(rest) => Some(prefix + seq![raw[i]] + rest),
                None => None,
            }
        } else {
            None
        }
    }
}

/// What the normalizer produces on `raw`: the node list interleaved with
/// subproof-open/close markers, or nothing when the indentation is broken.
pub open spec fn normalize_spec(raw: Seq<ProofNode>) -> Option<Seq<ProofNode>> {
    normalize_from(raw, 0, 1)
}

/// A node list that already holds a structural marker is never normalized;
/// feeding the normalizer its own output (of a proof with a subproof), or any
/// marked list, fails fatally.
pub proof fn lemma_normalize_rejects_markers(raw: Seq<ProofNode>, i: int, prev_depth: int, j: int)
    requires
        0 <= i <= j < raw.len(),
        raw[j] is SubproofOpen || raw[j] is SubproofClose,
    ensures
        normalize_from(raw, i, prev_depth) is None,
    decreases j - i,
{
    if i < j && !(raw[i] is SubproofOpen || raw[i] is SubproofClose) {
        lemma_normalize_rejects_markers(raw, i + 1, raw[i].spec_depth() as int, j);
    }
}

impl Proof {
    /// Inserts the synthetic subproof-open/close markers determined by the
    /// depth changes of `raw_nodes`, or reports a fatal error when a depth
    /// jump is larger than one or the list already holds markers.
    pub fn normalize_nodes(raw_nodes: Vec<ProofNode>) -> (r: Result<Vec<ProofNode>, String>)
        ensures
            match r {
                Ok(nodes) => normalize_spec(raw_nodes@) == Some(nodes@),
                Err(_) => normalize_spec(raw_nodes@) is None,
            },
    {
        let mut work = raw_nodes;
        let ghost raw: Seq<ProofNode> = work@;
        let mut normalized: Vec<ProofNode> = Vec::new();
        let mut prev_depth: usize = 1;
        let mut last_line_num: usize = 0;
        let ghost mut i: int = 0;

        while work.len() > 0
            invariant
                raw == raw_nodes@,
                0 <= i <= raw.len(),
                work@ == raw.subrange(i, raw.len() as int),
                match normalize_from(raw, i, prev_depth as int) {
                    Some(rest) => normalize_spec(raw) == Some(normalized@ + rest),
                    None => normalize_spec(raw) is None,
                },
            decreases work.len(),
        {
            let ghost pre: Seq<ProofNode> = normalized@;
            let node = work.remove(0);
            proof {
                assert(raw.subrange(i, raw.len() as int)[0] == raw[i]);
                assert(raw.subrange(i, raw.len() as int).subrange(
                    1,
                    raw.subrange(i, raw.len() as int).len() as int,
                ) =~= raw.subrange(i + 1, raw.len() as int));
            }

            if node.is_structural() {
                proof {
                    assert(normalize_from(raw, i, prev_depth as int) is None);
                }
                return Err("internal error: proof already contains structural markers".to_owned());
            }

            let depth = node.depth();

            if depth > prev_depth {
                if depth - prev_depth != 1 {
                    proof {
                        assert(normalize_from(raw, i, prev_depth as int) is None);
                    }
                    return Err(indentation_jump_message(last_line_num));
                }
                normalized.push(ProofNode::SubproofOpen { depth });
            } else if depth < prev_depth {
                if prev_depth - depth != 1 {
                    proof {
                        assert(normalize_from(raw, i, prev_depth as int) is None);
                    }
                    return Err(indentation_jump_message(last_line_num));
                }
                normalized.push(ProofNode::SubproofClose { depth: prev_depth });
            }

            if let ProofNode::Numbered(ref numbered) = node {
                last_line_num = numbered.line_num;
            }

            normalized.push(node);

            proof {
                let d = raw[i].spec_depth() as int;
                let prefix: Seq<ProofNode> = if d == prev_depth + 1 {
                    seq![ProofNode::SubproofOpen { depth: raw[i].spec_depth() }]
                } else if d + 1 == prev_depth {
                    seq![ProofNode::SubproofClose { depth: prev_depth as usize }]
                } else {
                    Seq::empty()
                };
                assert(normalized@ =~= pre + prefix + seq![raw[i]]);
                match normalize_from(raw, i + 1, d) {
                    Some(rest) => {
                        assert(normalize_from(raw, i, prev_depth as int) == Some(
                            prefix + seq![raw[i]] + rest,
                        ));
                        assert(pre + (prefix + seq![raw[i]] + rest) =~= normalized@ + rest);
                    },
                    None => {
                        assert(normalize_from(raw, i, prev_depth as int) is None);
                    },
                }
                i = i + 1;
            }

            prev_depth = depth;
        }

        proof {
            assert(normalize_from(raw, i, prev_depth as int) == Some(Seq::<ProofNode>::empty()));
            assert(normalized@ + Seq::<ProofNode>::empty() =~= normalized@);
        }
        Ok(normalized)
    }

    /// Checks that the normalized sequence is half-well-structured: premises,
    /// Fitch bars, subproof markers and inferences follow one another as the
    /// Fitch discipline demands, and the lines are numbered 1, 2, 3, ...
    ///
    /// "Half" because a premise standing after a Fitch bar (an inference whose
    /// justification the user has not written yet) is still tolerated here;
    /// the full verdict on such lines comes from the line-by-line checker.
    pub fn is_half_well_structured(nodes: &Vec<ProofNode>) -> (r: Result<(), String>)
        ensures
            r is Ok <==> half_well_structured(nodes@),
    {
        let first = next_meaningful_index(nodes, 0);
        proof {
            lemma_next_meaningful(nodes@, 0);
        }
        if first >= nodes.len() {
            return Err("Your proof appears to be empty.".to_owned());
        }
        match &nodes[first] {
            ProofNode::FitchBar { .. } => {},
            ProofNode::Numbered(line) if line.justification.is_none() => {},
            _ => {
                return Err(
                    "Error: proof should start with premises (or Fitch bar, if there are no premises).".to_owned(),
                );
            },
        }

        let mut i: usize = 0;
        while i < nodes.len()
            invariant
                i <= nodes@.len(),
                forall|j: int| 0 <= j < i ==> #[trigger] node_ok(nodes@, j),
            decreases nodes@.len() - i,
        {
            proof {
                lemma_next_meaningful(nodes@, i + 1);
            }
            match &nodes[i] {
                ProofNode::Empty { .. } => {},
                ProofNode::FitchBar { .. } => {
                    let n = next_meaningful_index(nodes, i + 1);
                    if n >= nodes.len() {
                        proof {
                            assert(!node_ok(nodes@, i as int));
                        }
                        return Err("The proof ends with a Fitch bar.".to_owned());
                    }
                    match &nodes[n] {
                        ProofNode::Numbered(line) if line.justification.is_some() => {},
                        ProofNode::SubproofOpen { .. } => {},
                        ProofNode::Numbered(line) if line.justification.is_none()
                            && line.boxed_constant.is_none() => {},
                        _ => {
                            proof {
                            assert(!node_ok(nodes@, i as int));
                        }
                        return Err(
                                "Error: Fitch bars should be followed by either a new subproof or an inference. You might be missing a justification.".to_owned(),
                            );
                        },
                    }
                },
                ProofNode::SubproofOpen { .. } => {
                    let p = next_meaningful_index(nodes, i + 1);
                    if p >= nodes.len() {
                        proof {
                            assert(!node_ok(nodes@, i as int));
                        }
                        return Err(
                            "Error: this proof ends with an opened subproof in a way that should not be.".to_owned(),
                        );
                    }
                    match &nodes[p] {
                        ProofNode::Numbered(line) if line.justification.is_none() => {},
                        _ => {
                            proof {
                            assert(!node_ok(nodes@, i as int));
                        }
                        return Err(
                                "Error: the first line on any new subproof should be a premise.".to_owned(),
                            );
                        },
                    }
                    proof {
                        lemma_next_meaningful(nodes@, p + 1);
                    }
                    let b = next_meaningful_index(nodes, p + 1);
                    if b >= nodes.len() {
                        proof {
                            assert(!node_ok(nodes@, i as int));
                        }
                        return Err(
                            "Error: this proof ends with an opened subproof in a way that should not be.".to_owned(),
                        );
                    }
                    match &nodes[b] {
                        ProofNode::FitchBar { .. } => {},
                        _ => {
                            proof {
                            assert(!node_ok(nodes@, i as int));
                        }
                        return Err(
                                "Error: a subproof should have exactly one premise, followed by a Fitch bar.".to_owned(),
                            );
                        },
                    }
                },
                ProofNode::SubproofClose { .. } => {
                    let n = next_meaningful_index(nodes, i + 1);
                    if n < nodes.len() {
                        match &nodes[n] {
                            ProofNode::Numbered(line) if line.justification.is_some() => {},
                            ProofNode::SubproofOpen { .. } => {},
                            ProofNode::Numbered(line) if line.justification.is_none()
                                && line.boxed_constant.is_none() => {},
                            _ => {
                                proof {
                            assert(!node_ok(nodes@, i as int));
                        }
                        return Err(
                                    "Error: after closing a subproof, either you should open a new subproof or there should be an inference. Maybe you are missing some justification.".to_owned(),
                                );
                            },
                        }
                    }
                },
                ProofNode::Numbered(line) if line.justification.is_some() => {
                    let n = next_meaningful_index(nodes, i + 1);
                    if n < nodes.len() {
                        match &nodes[n] {
                            ProofNode::Numbered(next_line) if next_line.justification.is_some() => {
                            },
                            ProofNode::SubproofOpen { .. } => {},
                            ProofNode::SubproofClose { .. } => {},
                            ProofNode::Numbered(next_line) if next_line.justification.is_none()
                                && next_line.boxed_constant.is_none() => {},
                            ProofNode::FitchBar { .. } => {
                                proof {
                            assert(!node_ok(nodes@, i as int));
                        }
                        return Err(
                                    "Error: you cannot have a Fitch bar after an inference. Maybe you are giving justification for a premise?".to_owned(),
                                );
                            },
                            _ => {
                                proof {
                            assert(!node_ok(nodes@, i as int));
                        }
                        return Err(
                                    "Error: a boxed constant can only be introduced in the premise of a subproof".to_owned(),
                                );
                            },
                        }
                    }
                },
                ProofNode::Numbered(line) if line.boxed_constant.is_none() => {
                    let n = next_meaningful_index(nodes, i + 1);
                    if n < nodes.len() {
                        match &nodes[n] {
                            ProofNode::Numbered(next_line) if next_line.justification.is_none()
                                && next_line.boxed_constant.is_some() => {
                                proof {
                            assert(!node_ok(nodes@, i as int));
                        }
                        return Err(
                                    "Error: a boxed constant can only be introduced in the premise of a subproof".to_owned(),
                                );
                            },
                            _ => {},
                        }
                    }
                },
                ProofNode::Numbered(line) => {
                    let n = next_meaningful_index(nodes, i + 1);
                    if n >= nodes.len() {
                        proof {
                            assert(!node_ok(nodes@, i as int));
                        }
                        return Err("Error: a proof cannot end with a premise.".to_owned());
                    }
                    match &nodes[n] {
                        ProofNode::FitchBar { .. } => {},
                        _ => {
                            proof {
                            assert(!node_ok(nodes@, i as int));
                        }
                        return Err(
                                "Error: after a premise, there should be a Fitch bar".to_owned(),
                            );
                        },
                    }
                },
            }
            i = i + 1;
        }

        let mut prev_num: usize = 0;
        let mut k: usize = 0;
        while k < nodes.len()
            invariant
                k <= nodes@.len(),
                prev_num == num_count(nodes@, k as int),
                prev_num <= k,
                forall|j: int|
                    0 <= j < k ==> (#[trigger] nodes@[j] matches ProofNode::Numbered(l)
                        ==> l.line_num == num_count(nodes@, j) + 1),
            decreases nodes@.len() - k,
        {
            if let ProofNode::Numbered(line) = &nodes[k] {
                if line.line_num != prev_num + 1 {
                    proof {
                        assert(!line_numbers_ok(nodes@));
                    }
                    return Err(line_number_discrepancy_message(prev_num, line.line_num));
                }
                prev_num = line.line_num;
            }
            k = k + 1;
        }

        Ok(())
    }

    /// Computes the [`Scope`] of a proof: for each inference line, which
    /// earlier lines and which closed subproofs it may cite.
    pub fn determine_scope(nodes: &Vec<ProofNode>) -> (scope: Scope)
        requires
            line_numbers_ok(nodes@),
        ensures
            scope_ok(nodes@, scope@),
            forall|n: int, k: int|
                0 <= n < scope@.len() && 0 <= k < scope@[n].0@.len() ==> #[trigger] scope@[n].0@[k]
                    < n,
            forall|n: int, k: int|
                0 <= n < scope@.len() && 0 <= k < scope@[n].1@.len() ==> (#[trigger] scope@[n].1@[k]).1
                    < n,
    {
        let ghost s = nodes@;
        let mut total: usize = 0;
        let mut i: usize = 0;
        while i < nodes.len()
            invariant
                i <= nodes@.len(),
                total == num_count(nodes@, i as int),
                total <= i,
            decreases nodes@.len() - i,
        {
            if matches!(&nodes[i], ProofNode::Numbered(_)) {
                total = total + 1;
            }
            i = i + 1;
        }

        let mut scope: Scope = Vec::new();
        if total == 0 {
            proof {
                assert forall|idx: int|
                    0 <= idx < s.len() implies !((#[trigger] s[idx]) is Numbered) by {
                    if s[idx] is Numbered {
                        lemma_num_count_monotone(s, 0, idx);
                        assert(num_count(s, idx + 1) >= 1);
                        lemma_num_count_monotone(s, idx + 1, s.len() as int);
                    }
                }
            }
            return scope;
        }

        proof {
            lemma_num_count_nonneg(s);
        }
        scope.push((Vec::new(), Vec::new()));
        let mut done: usize = 0;
        while done < total
            invariant
                line_numbers_ok(s),
                s == nodes@,
                done < total ==> done + 1 <= total,
                0 <= done <= total,
                total == num_count(s, s.len() as int),
                scope@.len() == done + 1,
                forall|idx: int|
                    0 <= idx < s.len() ==> ((#[trigger] s[idx]) matches ProofNode::Numbered(l)
                        ==> (l.justification is Some && l.line_num <= done ==> 0 <= l.line_num
                        < scope@.len() && scope@[l.line_num as int].0@ == scope_walk(
                        s,
                        idx,
                        Seq::empty(),
                    ).0 && scope@[l.line_num as int].1@ == scope_walk(s, idx, Seq::empty()).1)),
                forall|n: int|
                    0 <= n < scope@.len() && !line_has_inference(s, n) ==> (#[trigger] scope@[n]).0@.len()
                        == 0 && scope@[n].1@.len() == 0,
            decreases total - done,
        {
            let n = done + 1;
            proof {
                lemma_num_count_nonneg(s);
                lemma_num_count_surjective(s, s.len() as int, n as int);
                let w = choose|w: int|
                    0 <= w < s.len() && (#[trigger] s[w]) is Numbered && num_count(s, w) + 1
                        == n as int;
                assert(s[w] matches ProofNode::Numbered(l) && l.line_num == n);
            }
            let idx = find_line_index(nodes, n);
            let is_inf = match &nodes[idx] {
                ProofNode::Numbered(line) => line.justification.is_some(),
                _ => false,
            };
            if is_inf {
                let entry = walk_scope_at(nodes, idx);
                scope.push(entry);
            } else {
                scope.push((Vec::new(), Vec::new()));
            }
            proof {
                assert forall|idx2: int|
                    0 <= idx2 < s.len() && ((#[trigger] s[idx2]) matches ProofNode::Numbered(l)
                        && l.line_num == n as int) implies idx2 == idx as int by {
                    if idx2 < idx as int {
                        lemma_line_num_increasing(s, idx2, idx as int);
                    } else if idx2 > idx as int {
                        lemma_line_num_increasing(s, idx as int, idx2);
                    }
                }
                if !is_inf {
                    assert(!line_has_inference(s, n as int));
                }
            }
            done = n;
        }

        proof {
            assert forall|idx: int|
                0 <= idx < s.len() implies ((#[trigger] s[idx]) matches ProofNode::Numbered(l)
                ==> l.line_num <= total) by {
                if s[idx] is Numbered {
                    lemma_num_count_nonneg(s);
                    lemma_num_count_monotone(s, idx + 1, s.len() as int);
                }
            }
            lemma_scope_visible_lines_below(s, scope@);
            lemma_scope_visible_sub_ends_below(s, scope@);
        }
        scope
    }

    /// Builds a [`Proof`] from a raw node list: normalizes it, validates
    /// half-well-formedness, and computes the scope. A failure here is a
    /// fatal error; nothing further can be checked.
    pub fn construct(raw_nodes: Vec<ProofNode>, allowed_variable_names: Vec<String>) -> (r: Result<
        Proof,
        String,
    >)
        ensures
            match r {
                Ok(p) => {
                    &&& normalize_spec(raw_nodes@) matches Some(ns) && p.nodes@ == ns
                    &&& p.wf()
                    &&& p.allowed_variable_names == allowed_variable_names
                },
                Err(_) => match normalize_spec(raw_nodes@) {
                    Some(ns) => !half_well_structured(ns),
                    None => true,
                },
            },
    {
        let nodes = match Self::normalize_nodes(raw_nodes) {
            Ok(nodes) => nodes,
            Err(e) => {
                return Err(e);
            },
        };
        if let Err(e) = Self::is_half_well_structured(&nodes) {
            return Err(e);
        }
        let scope = Self::determine_scope(&nodes);

        Ok(Proof { nodes, scope, allowed_variable_names })
    }

    /// A constructed proof is half-well-structured and carries the scope
    /// that its node sequence determines.
    pub open spec fn wf(self) -> bool {
        &&& half_well_structured(self.nodes@)
        &&& scope_ok(self.nodes@, self.scope@)
    }

    /// The normalized node sequence.
    pub fn nodes(&self) -> (r: &Vec<ProofNode>)
        ensures
            r@ == self.nodes@,
    {
        &self.nodes
    }

    /// The numbered lines of the proof, in document order.
    pub fn numbered_lines(&self) -> (r: Vec<&NumberedLine>)
        ensures
            r@.len() == num_count(self.nodes@, self.nodes@.len() as int),
            forall|i: int|
                0 <= i < self.nodes@.len() ==> ((#[trigger] self.nodes@[i])
                    matches ProofNode::Numbered(l) ==> *r@[num_count(self.nodes@, i)] == l),
    {
        let mut result: Vec<&NumberedLine> = Vec::new();
        let mut i: usize = 0;
        while i < self.nodes.len()
            invariant
                i <= self.nodes@.len(),
                result@.len() == num_count(self.nodes@, i as int),
                forall|j: int|
                    0 <= j < i ==> ((#[trigger] self.nodes@[j]) matches ProofNode::Numbered(l)
                        ==> *result@[num_count(self.nodes@, j)] == l),
            decreases self.nodes@.len() - i,
        {
            proof {
                lemma_num_count_nonneg(self.nodes@);
            }
            if let ProofNode::Numbered(line) = &self.nodes[i] {
                result.push(line);
                proof {
                    let s = self.nodes@;
                    assert forall|j: int|
                        0 <= j < i && s[j] is Numbered implies num_count(s, j) + 1 <= num_count(
                        s,
                        i as int,
                    ) by {
                        lemma_num_count_monotone(s, j + 1, i as int);
                    }
                }
            }
            i = i + 1;
        }
        result
    }

    /// The first numbered line carrying line number `line_num`, if any.
    pub fn find_numbered_line(&self, line_num: usize) -> (r: Option<&NumberedLine>)
        ensures
            match r {
                Some(l) => find_numbered_line_spec(self.nodes@, 0, line_num) == Some(*l),
                None => find_numbered_line_spec(self.nodes@, 0, line_num) is None,
            },
    {
        let mut i: usize = 0;
        while i < self.nodes.len()
            invariant
                i <= self.nodes@.len(),
                find_numbered_line_spec(self.nodes@, 0, line_num) == find_numbered_line_spec(
                    self.nodes@,
                    i as int,
                    line_num,
                ),
            decreases self.nodes@.len() - i,
        {
            if let ProofNode::Numbered(line) = &self.nodes[i] {
                if line.line_num == line_num {
                    return Some(line);
                }
            }
            i = i + 1;
        }
        None
    }

    /// The last numbered line of the proof, if any.
    pub fn last_numbered_line(&self) -> (r: Option<&NumberedLine>)
        ensures
            match r {
                Some(l) => last_numbered_line_spec(self.nodes@, self.nodes@.len() as int) == Some(
                    *l,
                ),
                None => last_numbered_line_spec(self.nodes@, self.nodes@.len() as int) is None,
            },
    {
        let mut j: usize = self.nodes.len();
        while j > 0
            invariant
                j <= self.nodes@.len(),
                last_numbered_line_spec(self.nodes@, self.nodes@.len() as int)
                    == last_numbered_line_spec(self.nodes@, j as int),
            decreases j,
        {
            if let ProofNode::Numbered(line) = &self.nodes[j - 1] {
                return Some(line);
            }
            j = j - 1;
        }
        None
    }
}

/// The first numbered line at or after index `i` carrying line number `n`.
pub open spec fn find_numbered_line_spec(s: Seq<ProofNode>, i: int, n: usize) -> Option<
    NumberedLine,
>
    decreases s.len() - i,
{
    if i < 0 || i >= s.len() {
        None
    } else {
        match s[i] {
            ProofNode::Numbered(l) => if l.line_num == n {
                Some(l)
            } else {
                find_numbered_line_spec(s, i + 1, n)
            },
            _ => find_numbered_line_spec(s, i + 1, n),
        }
    }
}

/// The last numbered line among the first `j` nodes.
pub open spec fn last_numbered_line_spec(s: Seq<ProofNode>, j: int) -> Option<NumberedLine>
    decreases j,
{
    if j <= 0 || j > s.len() {
        None
    } else {
        match s[j - 1] {
            ProofNode::Numbered(l) => Some(l),
            _ => last_numbered_line_spec(s, j - 1),
        }
    }
}

/// Whether this node is a numbered line carrying a justification.
pub open spec fn is_inference_node(n: ProofNode) -> bool {
    n matches ProofNode::Numbered(l) && l.justification is Some
}

/// Whether this node is a numbered line without a justification and without
/// a boxed constant (a premise, or an inference the user has not justified).
pub open spec fn is_premise_without_box(n: ProofNode) -> bool {
    n matches ProofNode::Numbered(l) && l.justification is None && l.boxed_constant is None
}

/// Whether this node is a numbered line without a justification that
/// introduces a boxed constant.
pub open spec fn is_premise_with_box(n: ProofNode) -> bool {
    n matches ProofNode::Numbered(l) && l.justification is None && l.boxed_constant is Some
}

/// The index of the first node at or after `i` that is not an empty line,
/// or `s.len()` when every node from `i` on is empty.
pub open spec fn next_meaningful(s: Seq<ProofNode>, i: int) -> int
    decreases s.len() - i,
{
    if i < 0 || i >= s.len() {
        s.len() as int
    } else if !(s[i] is Empty) {
        i
    } else {
        next_meaningful(s, i + 1)
    }
}

pub proof fn lemma_next_meaningful(s: Seq<ProofNode>, i: int)
    requires
        0 <= i <= s.len(),
    ensures
        i <= next_meaningful(s, i) <= s.len(),
        next_meaningful(s, i) < s.len() ==> !(s[next_meaningful(s, i)] is Empty),
    decreases s.len() - i,
{
    if i < s.len() && s[i] is Empty {
        lemma_next_meaningful(s, i + 1);
    }
}

/// The number of numbered lines among the first `i` nodes of `s`.
pub open spec fn num_count(s: Seq<ProofNode>, i: int) -> int
    decreases i,
{
    if i <= 0 {
        0
    } else {
        num_count(s, i - 1) + if s[i - 1] is Numbered {
            1int
        } else {
            0int
        }
    }
}

/// The numbered lines of `s` are numbered 1, 2, 3, ... in document order.
pub open spec fn line_numbers_ok(s: Seq<ProofNode>) -> bool {
    forall|i: int|
        0 <= i < s.len() ==> (#[trigger] s[i] matches ProofNode::Numbered(l) ==> l.line_num
            == num_count(s, i) + 1)
}

/// The adjacency discipline at position `i` of the normalized sequence: what
/// the next meaningful node after `s[i]` may be, and whether one must exist.
pub open spec fn node_ok(s: Seq<ProofNode>, i: int) -> bool {
    let n = next_meaningful(s, i + 1);
    let at_end = n >= s.len();
    match s[i] {
        ProofNode::Empty { .. } => true,
        ProofNode::FitchBar { .. } => !at_end && (is_inference_node(s[n]) || s[n] is SubproofOpen
            || is_premise_without_box(s[n])),
        ProofNode::SubproofOpen { .. } => {
            let b = next_meaningful(s, n + 1);
            !at_end && (s[n] matches ProofNode::Numbered(l) && l.justification is None) && b
                < s.len() && s[b] is FitchBar
        },
        ProofNode::SubproofClose { .. } => at_end || is_inference_node(s[n]) || s[n]
            is SubproofOpen || is_premise_without_box(s[n]),
        ProofNode::Numbered(l) => {
            if l.justification is Some {
                at_end || is_inference_node(s[n]) || s[n] is SubproofOpen || s[n] is SubproofClose
                    || is_premise_without_box(s[n])
            } else if l.boxed_constant is None {
                at_end || s[n] is FitchBar || is_inference_node(s[n]) || s[n] is SubproofOpen || s[n]
                    is SubproofClose || is_premise_without_box(s[n])
            } else {
                !at_end && s[n] is FitchBar
            }
        },
    }
}

/// Half-well-formedness of a normalized node sequence: the proof is not
/// empty, starts with a Fitch bar or a premise, every node is followed by a
/// node its kind allows, and the lines are numbered 1, 2, 3, ...
pub open spec fn half_well_structured(s: Seq<ProofNode>) -> bool {
    let f = next_meaningful(s, 0);
    &&& f < s.len()
    &&& (s[f] is FitchBar || (s[f] matches ProofNode::Numbered(l) && l.justification is None))
    &&& (forall|i: int| 0 <= i < s.len() ==> #[trigger] node_ok(s, i))
    &&& line_numbers_ok(s)
}

/// Finds the line number of the first numbered line at or after index `j`.
fn first_numbered_at_or_after_index(nodes: &Vec<ProofNode>, j: usize) -> (r: Option<usize>)
    requires
        j <= nodes@.len(),
    ensures
        r == first_numbered_at_or_after(nodes@, j as int),
{
    let mut k: usize = j;
    while k < nodes.len()
        invariant
            j <= k <= nodes@.len(),
            first_numbered_at_or_after(nodes@, j as int) == first_numbered_at_or_after(
                nodes@,
                k as int,
            ),
        decreases nodes@.len() - k,
    {
        if let ProofNode::Numbered(line) = &nodes[k] {
            return Some(line.line_num);
        }
        k = k + 1;
    }
    None
}

/// Finds the line number of the last numbered line strictly before index `j`.
fn last_numbered_before_index(nodes: &Vec<ProofNode>, j: usize) -> (r: Option<usize>)
    requires
        j <= nodes@.len(),
    ensures
        r == last_numbered_before(nodes@, j as int),
{
    let mut k: usize = j;
    while k > 0
        invariant
            k <= j <= nodes@.len(),
            last_numbered_before(nodes@, j as int) == last_numbered_before(nodes@, k as int),
        decreases k,
    {
        if let ProofNode::Numbered(line) = &nodes[k - 1] {
            return Some(line.line_num);
        }
        k = k - 1;
    }
    None
}

/// Finds the index of the numbered line carrying line number `n`; the caller
/// warrants that it exists.
fn find_line_index(nodes: &Vec<ProofNode>, n: usize) -> (idx: usize)
    requires
        exists|i: int|
            0 <= i < nodes@.len() && ((#[trigger] nodes@[i]) matches ProofNode::Numbered(l)
                && l.line_num == n),
    ensures
        idx < nodes@.len(),
        nodes@[idx as int] matches ProofNode::Numbered(l) && l.line_num == n,
{
    let mut i: usize = 0;
    while i < nodes.len()
        invariant
            i <= nodes@.len(),
            exists|w: int|
                0 <= w < nodes@.len() && ((#[trigger] nodes@[w]) matches ProofNode::Numbered(l)
                    && l.line_num == n),
            forall|j: int|
                0 <= j < i ==> ((#[trigger] nodes@[j]) matches ProofNode::Numbered(l)
                    ==> l.line_num != n),
        decreases nodes@.len() - i,
    {
        if let ProofNode::Numbered(line) = &nodes[i] {
            if line.line_num == n {
                return i;
            }
        }
        i = i + 1;
    }
    proof {
        let w = choose|w: int|
            0 <= w < nodes@.len() && ((#[trigger] nodes@[w]) matches ProofNode::Numbered(l)
                && l.line_num == n);
        assert(nodes@[w] matches ProofNode::Numbered(l) ==> l.line_num != n);
        assert(false);
    }
    0
}

/// Collects, for the inference line at index `idx`, the visible lines and
/// visible closed subproofs by walking backwards from `idx`.
fn walk_scope_at(nodes: &Vec<ProofNode>, idx: usize) -> (entry: (Vec<usize>, Vec<(usize, usize)>))
    requires
        idx <= nodes@.len(),
    ensures
        entry.0@ == scope_walk(nodes@, idx as int, Seq::empty()).0,
        entry.1@ == scope_walk(nodes@, idx as int, Seq::empty()).1,
{
    let mut lines: Vec<usize> = Vec::new();
    let mut subs: Vec<(usize, usize)> = Vec::new();
    let mut stack: Vec<usize> = Vec::new();
    let mut j: usize = idx;

    proof {
        assert(lines@ + scope_walk(nodes@, idx as int, stack@).0 =~= scope_walk(
            nodes@,
            idx as int,
            Seq::empty(),
        ).0);
        assert(subs@ + scope_walk(nodes@, idx as int, stack@).1 =~= scope_walk(
            nodes@,
            idx as int,
            Seq::empty(),
        ).1);
    }

    while j > 0
        invariant
            j <= idx <= nodes@.len(),
            scope_walk(nodes@, idx as int, Seq::empty()).0 == lines@ + scope_walk(
                nodes@,
                j as int,
                stack@,
            ).0,
            scope_walk(nodes@, idx as int, Seq::empty()).1 == subs@ + scope_walk(
                nodes@,
                j as int,
                stack@,
            ).1,
        decreases j,
    {
        let ghost old_lines = lines@;
        let ghost old_subs = subs@;
        let ghost old_stack = stack@;
        let ghost s = nodes@;
        let ghost jj = j as int;

        match &nodes[j - 1] {
            ProofNode::SubproofClose { .. } => {
                let end = match last_numbered_before_index(nodes, j - 1) {
                    Some(n) => n,
                    None => 0,
                };
                stack.push(end);
                proof {
                    assert(scope_walk(s, jj, old_stack) == scope_walk(s, jj - 1, stack@));
                }
            },
            ProofNode::SubproofOpen { .. } => {
                if stack.len() > 0 {
                    let record = stack.len() == 1;
                    let end = match stack.pop() {
                        Some(e) => e,
                        None => 0,
                    };
                    proof {
                        assert(stack@ =~= old_stack.drop_last());
                        assert(end == old_stack.last());
                    }
                    if record {
                        let begin = match first_numbered_at_or_after_index(nodes, j) {
                            Some(n) => n,
                            None => 0,
                        };
                        subs.push((begin, end));
                        proof {
                            let rest = scope_walk(s, jj - 1, old_stack.drop_last());
                            assert(scope_walk(s, jj, old_stack).1 == seq![(begin, end)] + rest.1);
                            assert(old_subs + (seq![(begin, end)] + rest.1) =~= subs@ + rest.1);
                        }
                    }
                }
            },
            ProofNode::Numbered(line) => {
                if stack.len() == 0 {
                    lines.push(line.line_num);
                    proof {
                        let rest = scope_walk(s, jj - 1, old_stack);
                        assert(old_stack.len() == 0);
                        assert(scope_walk(s, jj, old_stack).0 == seq![line.line_num] + rest.0);
                        assert(old_lines + (seq![line.line_num] + rest.0) =~= lines@ + rest.0);
                    }
                }
            },
            _ => {},
        }
        j = j - 1;
    }

    proof {
        assert(lines@ + scope_walk(nodes@, 0, stack@).0 =~= lines@);
        assert(subs@ + scope_walk(nodes@, 0, stack@).1 =~= subs@);
    }
    (lines, subs)
}

/// Finds the first non-empty node at or after `start`, returning
/// `nodes.len()` when there is none.
fn next_meaningful_index(nodes: &Vec<ProofNode>, start: usize) -> (r: usize)
    requires
        start <= nodes@.len(),
    ensures
        r == next_meaningful(nodes@, start as int),
{
    let mut idx: usize = start;
    while idx < nodes.len()
        invariant
            start <= idx <= nodes@.len(),
            next_meaningful(nodes@, start as int) == next_meaningful(nodes@, idx as int),
        decreases nodes@.len() - idx,
    {
        if !(matches!(&nodes[idx], ProofNode::Empty { .. })) {
            return idx;
        }
        idx = idx + 1;
    }
    idx
}

/// The line number of the first numbered line at or after index `j`.
pub open spec fn first_numbered_at_or_after(s: Seq<ProofNode>, j: int) -> Option<usize>
    decreases s.len() - j,
{
    if j < 0 || j >= s.len() {
        None
    } else {
        match s[j] {
            ProofNode::Numbered(l) => Some(l.line_num),
            _ => first_numbered_at_or_after(s, j + 1),
        }
    }
}

/// The line number of the last numbered line strictly before index `j`.
pub open spec fn last_numbered_before(s: Seq<ProofNode>, j: int) -> Option<usize>
    decreases j,
{
    if j <= 0 || j > s.len() {
        None
    } else {
        match s[j - 1] {
            ProofNode::Numbered(l) => Some(l.line_num),
            _ => last_numbered_before(s, j - 1),
        }
    }
}

/// The visible lines and visible closed subproofs collected by walking
/// backwards over `s[..j]`. `stack` holds the end lines of the closed
/// subproofs entered so far; its length plays the role of the nesting
/// counter, so a numbered line is visible exactly when the stack is empty,
/// and a closed subproof is recorded when its open marker brings the stack
/// down to empty.
pub open spec fn scope_walk(s: Seq<ProofNode>, j: int, stack: Seq<usize>) -> (Seq<usize>, Seq<
    (usize, usize),
>)
    decreases j,
{
    if j <= 0 || j > s.len() {
        (Seq::empty(), Seq::empty())
    } else {
        match s[j - 1] {
            ProofNode::SubproofClose { .. } => {
                let end = match last_numbered_before(s, j - 1) {
                    Some(n) => n,
                    None => 0,
                };
                scope_walk(s, j - 1, stack.push(end))
            },
            ProofNode::SubproofOpen { .. } => {
                if stack.len() > 0 {
                    let rest = scope_walk(s, j - 1, stack.drop_last());
                    if stack.len() == 1 {
                        let begin = match first_numbered_at_or_after(s, j) {
                            Some(n) => n,
                            None => 0,
                        };
                        (rest.0, seq![(begin, stack.last())] + rest.1)
                    } else {
                        rest
                    }
                } else {
                    scope_walk(s, j - 1, stack)
                }
            },
            ProofNode::Numbered(l) => {
                if stack.len() == 0 {
                    let rest = scope_walk(s, j - 1, stack);
                    (seq![l.line_num] + rest.0, rest.1)
                } else {
                    scope_walk(s, j - 1, stack)
                }
            },
            _ => scope_walk(s, j - 1, stack),
        }
    }
}

/// Whether some numbered line of `s` carries line number `n` and a
/// justification.
pub open spec fn line_has_inference(s: Seq<ProofNode>, n: int) -> bool {
    exists|idx: int|
        0 <= idx < s.len() && ((#[trigger] s[idx]) matches ProofNode::Numbered(l)
            && l.justification is Some && l.line_num == n)
}

/// What [`Proof::determine_scope`] returns on `s`: one entry per line number
/// (entry 0 unused), where each inference line's entry holds exactly the
/// lines and closed subproofs its backward walk collects, and every other
/// entry is empty.
pub open spec fn scope_ok(s: Seq<ProofNode>, scope: Seq<(Vec<usize>, Vec<(usize, usize)>)>) -> bool {
    let total = num_count(s, s.len() as int);
    &&& scope.len() == if total == 0 {
        0int
    } else {
        total + 1
    }
    &&& (forall|idx: int|
        0 <= idx < s.len() ==> ((#[trigger] s[idx]) matches ProofNode::Numbered(l) ==> (
        l.justification is Some ==> 0 <= l.line_num < scope.len() && scope[l.line_num as int].0@
            == scope_walk(s, idx, Seq::empty()).0 && scope[l.line_num as int].1@ == scope_walk(
            s,
            idx,
            Seq::empty(),
        ).1)))
    &&& (forall|n: int|
        0 <= n < scope.len() && !line_has_inference(s, n) ==> (#[trigger] scope[n]).0@.len() == 0
            && scope[n].1@.len() == 0)
}

pub proof fn lemma_num_count_monotone(s: Seq<ProofNode>, a: int, b: int)
    requires
        a <= b,
    ensures
        num_count(s, a) <= num_count(s, b),
    decreases b - a,
{
    if a < b {
        lemma_num_count_monotone(s, a, b - 1);
    }
}

pub proof fn lemma_num_count_nonneg(s: Seq<ProofNode>)
    ensures
        forall|i: int| #[trigger] num_count(s, i) >= 0,
{
    assert forall|i: int| #[trigger] num_count(s, i) >= 0 by {
        if i >= 0 {
            lemma_num_count_monotone(s, 0, i);
        }
    }
}

/// Every line number emitted by the backward walk over `s[..j]` belongs to a
/// numbered line among the first `j` nodes, so it is at most `num_count(s, j)`.
pub proof fn lemma_scope_walk_lines_bound(s: Seq<ProofNode>, j: int, stack: Seq<usize>)
    requires
        line_numbers_ok(s),
        0 <= j <= s.len(),
    ensures
        forall|k: int|
            0 <= k < scope_walk(s, j, stack).0.len() ==> #[trigger] scope_walk(s, j, stack).0[k]
                <= num_count(s, j),
    decreases j,
{
    if j > 0 {
        match s[j - 1] {
            ProofNode::SubproofClose { .. } => {
                let end = match last_numbered_before(s, j - 1) {
                    Some(n) => n,
                    None => 0,
                };
                let tail = scope_walk(s, j - 1, stack.push(end));
                lemma_scope_walk_lines_bound(s, j - 1, stack.push(end));
                assert(scope_walk(s, j, stack).0 == tail.0);
                assert forall|k: int|
                    0 <= k < scope_walk(s, j, stack).0.len() implies #[trigger] scope_walk(
                    s,
                    j,
                    stack,
                ).0[k] <= num_count(s, j) by {
                    assert(scope_walk(s, j, stack).0[k] == tail.0[k]);
                }
            },
            ProofNode::SubproofOpen { .. } => {
                let inner = if stack.len() > 0 {
                    stack.drop_last()
                } else {
                    stack
                };
                let tail = scope_walk(s, j - 1, inner);
                lemma_scope_walk_lines_bound(s, j - 1, inner);
                assert(scope_walk(s, j, stack).0 == tail.0);
                assert forall|k: int|
                    0 <= k < scope_walk(s, j, stack).0.len() implies #[trigger] scope_walk(
                    s,
                    j,
                    stack,
                ).0[k] <= num_count(s, j) by {
                    assert(scope_walk(s, j, stack).0[k] == tail.0[k]);
                }
            },
            ProofNode::Numbered(l) => {
                let tail = scope_walk(s, j - 1, stack);
                lemma_scope_walk_lines_bound(s, j - 1, stack);
                assert(l.line_num == num_count(s, j - 1) + 1);
                assert forall|k: int|
                    0 <= k < scope_walk(s, j, stack).0.len() implies #[trigger] scope_walk(
                    s,
                    j,
                    stack,
                ).0[k] <= num_count(s, j) by {
                    if stack.len() == 0 {
                        assert(scope_walk(s, j, stack).0 == seq![l.line_num] + tail.0);
                        if k > 0 {
                            assert(scope_walk(s, j, stack).0[k] == tail.0[k - 1]);
                        }
                    } else {
                        assert(scope_walk(s, j, stack).0[k] == tail.0[k]);
                    }
                }
            },
            _ => {
                let tail = scope_walk(s, j - 1, stack);
                lemma_scope_walk_lines_bound(s, j - 1, stack);
                assert forall|k: int|
                    0 <= k < scope_walk(s, j, stack).0.len() implies #[trigger] scope_walk(
                    s,
                    j,
                    stack,
                ).0[k] <= num_count(s, j) by {
                    assert(scope_walk(s, j, stack).0[k] == tail.0[k]);
                }
            },
        }
    }
}

/// Distinct numbered lines carry distinct (indeed increasing) line numbers.
pub proof fn lemma_line_num_increasing(s: Seq<ProofNode>, i1: int, i2: int)
    requires
        line_numbers_ok(s),
        0 <= i1 < i2 < s.len(),
        s[i1] is Numbered,
        s[i2] is Numbered,
    ensures
        (s[i1] matches ProofNode::Numbered(l1) ==> (s[i2] matches ProofNode::Numbered(l2)
            ==> l1.line_num < l2.line_num)),
{
    lemma_num_count_monotone(s, i1 + 1, i2);
}

/// Every line number from 1 up to `num_count(s, j)` is carried by some
/// numbered line among the first `j` nodes.
pub proof fn lemma_num_count_surjective(s: Seq<ProofNode>, j: int, m: int)
    requires
        0 <= j <= s.len(),
        1 <= m <= num_count(s, j),
    ensures
        exists|i: int|
            0 <= i < j && (#[trigger] s[i]) is Numbered && num_count(s, i) + 1 == m,
    decreases j,
{
    if j > 0 {
        if s[j - 1] is Numbered && num_count(s, j - 1) + 1 == m {
            assert(0 <= j - 1 < j && s[j - 1] is Numbered && num_count(s, j - 1) + 1 == m);
        } else {
            lemma_num_count_surjective(s, j - 1, m);
        }
    }
}

/// The last numbered line before position `j` carries a line number that is
/// at most the count of numbered lines among the first `j` nodes.
pub proof fn lemma_last_numbered_before_bound(s: Seq<ProofNode>, j: int)
    requires
        line_numbers_ok(s),
        0 <= j <= s.len(),
    ensures
        last_numbered_before(s, j) matches Some(v) ==> v <= num_count(s, j),
    decreases j,
{
    if j > 0 && !(s[j - 1] is Numbered) {
        lemma_last_numbered_before_bound(s, j - 1);
    }
}

/// Every closed subproof recorded by the backward walk over `s[..j]` ends at
/// a line number bounded by `bound`, provided the pending end lines on the
/// stack are and the numbered lines seen so far stay below it too.
pub proof fn lemma_scope_walk_subs_end_bound(
    s: Seq<ProofNode>,
    j: int,
    stack: Seq<usize>,
    bound: int,
)
    requires
        line_numbers_ok(s),
        0 <= j <= s.len(),
        num_count(s, j) <= bound,
        forall|k: int| 0 <= k < stack.len() ==> #[trigger] stack[k] <= bound,
    ensures
        forall|k: int|
            0 <= k < scope_walk(s, j, stack).1.len() ==> (#[trigger] scope_walk(s, j, stack).1[k]).1
                <= bound,
    decreases j,
{
    if j > 0 {
        match s[j - 1] {
            ProofNode::SubproofClose { .. } => {
                let end = match last_numbered_before(s, j - 1) {
                    Some(n) => n,
                    None => 0,
                };
                lemma_last_numbered_before_bound(s, j - 1);
                lemma_num_count_monotone(s, j - 1, j);
                lemma_num_count_nonneg(s);
                assert forall|k: int|
                    0 <= k < stack.push(end).len() implies #[trigger] stack.push(end)[k]
                    <= bound by {
                    if k < stack.len() {
                        assert(stack[k] <= bound);
                    }
                }
                let tail = scope_walk(s, j - 1, stack.push(end));
                lemma_scope_walk_subs_end_bound(s, j - 1, stack.push(end), bound);
                assert forall|k: int|
                    0 <= k < scope_walk(s, j, stack).1.len() implies (#[trigger] scope_walk(
                    s,
                    j,
                    stack,
                ).1[k]).1 <= bound by {
                    assert(scope_walk(s, j, stack).1[k] == tail.1[k]);
                }
            },
            ProofNode::SubproofOpen { .. } => {
                if stack.len() > 0 {
                    lemma_num_count_monotone(s, j - 1, j);
                    assert forall|k: int|
                        0 <= k < stack.drop_last().len() implies #[trigger] stack.drop_last()[k]
                        <= bound by {
                        assert(stack[k] <= bound);
                    }
                    let tail = scope_walk(s, j - 1, stack.drop_last());
                    lemma_scope_walk_subs_end_bound(s, j - 1, stack.drop_last(), bound);
                    assert forall|k: int|
                        0 <= k < scope_walk(s, j, stack).1.len() implies (#[trigger] scope_walk(
                        s,
                        j,
                        stack,
                    ).1[k]).1 <= bound by {
                        if stack.len() == 1 {
                            if k > 0 {
                                assert(scope_walk(s, j, stack).1[k] == tail.1[k - 1]);
                            } else {
                                assert(scope_walk(s, j, stack).1[0].1 == stack.last());
                            }
                        } else {
                            assert(scope_walk(s, j, stack).1[k] == tail.1[k]);
                        }
                    }
                } else {
                    lemma_num_count_monotone(s, j - 1, j);
                    let tail = scope_walk(s, j - 1, stack);
                    lemma_scope_walk_subs_end_bound(s, j - 1, stack, bound);
                    assert forall|k: int|
                        0 <= k < scope_walk(s, j, stack).1.len() implies (#[trigger] scope_walk(
                        s,
                        j,
                        stack,
                    ).1[k]).1 <= bound by {
                        assert(scope_walk(s, j, stack).1[k] == tail.1[k]);
                    }
                }
            },
            _ => {
                lemma_num_count_monotone(s, j - 1, j);
                let tail = scope_walk(s, j - 1, stack);
                lemma_scope_walk_subs_end_bound(s, j - 1, stack, bound);
                assert forall|k: int|
                    0 <= k < scope_walk(s, j, stack).1.len() implies (#[trigger] scope_walk(
                    s,
                    j,
                    stack,
                ).1[k]).1 <= bound by {
                    assert(scope_walk(s, j, stack).1[k] == tail.1[k]);
                }
            },
        }
    }
}

/// Scope monotonicity for subproof citations: under a correct numbering,
/// every closed subproof visible to an inference line ends strictly below
/// the citing line itself.
pub proof fn lemma_scope_visible_sub_ends_below(
    s: Seq<ProofNode>,
    scope: Seq<(Vec<usize>, Vec<(usize, usize)>)>,
)
    requires
        line_numbers_ok(s),
        scope_ok(s, scope),
    ensures
        forall|n: int, k: int|
            0 <= n < scope.len() && 0 <= k < scope[n].1@.len() ==> (#[trigger] scope[n].1@[k]).1
                < n,
{
    assert forall|n: int, k: int|
        0 <= n < scope.len() && 0 <= k < scope[n].1@.len() implies (#[trigger] scope[n].1@[k]).1
        < n by {
        if line_has_inference(s, n) {
            let idx = choose|idx: int|
                0 <= idx < s.len() && ((#[trigger] s[idx]) matches ProofNode::Numbered(l)
                    && l.justification is Some && l.line_num == n);
            lemma_num_count_monotone(s, 0, idx);
            lemma_scope_walk_subs_end_bound(s, idx, Seq::empty(), num_count(s, idx));
            assert(num_count(s, idx) + 1 == n);
        }
    }
}

/// Scope monotonicity: under a correct numbering, every line visible to an
/// inference line carries a strictly smaller line number than the citing
/// line itself.
pub proof fn lemma_scope_visible_lines_below(
    s: Seq<ProofNode>,
    scope: Seq<(Vec<usize>, Vec<(usize, usize)>)>,
)
    requires
        line_numbers_ok(s),
        scope_ok(s, scope),
    ensures
        forall|n: int, k: int|
            0 <= n < scope.len() && 0 <= k < scope[n].0@.len() ==> #[trigger] scope[n].0@[k] < n,
{
    assert forall|n: int, k: int|
        0 <= n < scope.len() && 0 <= k < scope[n].0@.len() implies #[trigger] scope[n].0@[k]
        < n by {
        if line_has_inference(s, n) {
            let idx = choose|idx: int|
                0 <= idx < s.len() && ((#[trigger] s[idx]) matches ProofNode::Numbered(l)
                    && l.justification is Some && l.line_num == n);
            lemma_scope_walk_lines_bound(s, idx, Seq::empty());
            assert(num_count(s, idx) + 1 == n);
            lemma_num_count_monotone(s, 0, idx);
        }
    }
}

/// Builds the fatal-error message for a line-number discrepancy.
fn line_number_discrepancy_message(prev: usize, num: usize) -> String {
    "Line numbers are wrong; discrepancy between line ".to_owned().concat(
        usize_to_string(prev).as_str(),
    ).concat(" and ").concat(usize_to_string(num).as_str()).concat("...")
}

/// Builds the fatal-error message for an indentation jump near `n`.
fn indentation_jump_message(n: usize) -> String {
    let next: usize = if n < usize::MAX {
        n + 1
    } else {
        n
    };
    "near line ".to_owned().concat(usize_to_string(next).as_str()).concat(
        ", there is an 'indentation/scope jump' that is too big. You cannot open or close two subproofs in the same line.",
    )
}

} // verus!
