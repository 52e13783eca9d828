//! The validator: one pass per concern over a finished graph, each of
//! which collects every defect it finds, and their composition.

use crate::ir::errors::{
    error_views, lemma_error_views_concat, lemma_error_views_push, ValidationError,
    ValidationErrorView,
};
use crate::ir::acyclic::{
    accounts_for_cycles, is_cycle, lemma_cycle_pass_decides, lemma_cycles_accounted,
};
use crate::ir::cycles::{cycle_errors, find_cycles};
use crate::ir::graph::Graph;
use crate::ir::ops::NodeView;
use crate::ir::types::{arity_of, id_numbers, name_of, NodeID};
use vstd::prelude::*;

verus! {

/// Outcome of a pass: success, or every defect found, in discovery order.
pub type ValidationResult = Result<(), Vec<ValidationError>>;

/// The defects that an outcome carries; none for a success.
pub open spec fn findings(r: ValidationResult) -> Seq<ValidationErrorView> {
    match r {
        Ok(_) => Seq::empty(),
        Err(errors) => error_views(errors@),
    }
}

/// An outcome reports a list of defects when it is a success for the
/// empty list and otherwise a failure that carries exactly that list.
pub open spec fn reports(r: ValidationResult, defects: Seq<ValidationErrorView>) -> bool {
    &&& r is Ok <==> defects.len() == 0
    &&& findings(r) == defects
}

/// The defects of a list of outcomes: those of each outcome, in the
/// order of the list.
pub open spec fn combined(results: Seq<ValidationResult>) -> Seq<ValidationErrorView>
    decreases results.len(),
{
    if results.len() == 0 {
        Seq::empty()
    } else {
        findings(results[0]) + combined(results.drop_first())
    }
}

/// The successful outcome.
pub fn ok() -> (r: ValidationResult)
    ensures
        r is Ok,
{
    Ok(())
}

/// The failed outcome that carries one defect.
pub fn single_error(error: ValidationError) -> (r: ValidationResult)
    ensures
        reports(r, seq![error@]),
{
    let mut errors: Vec<ValidationError> = Vec::new();
    errors.push(error);
    assert(error_views(errors@) =~= seq![error@]);
    Err(errors)
}

/// Turns a list of collected defects into an outcome.
fn outcome(errors: Vec<ValidationError>) -> (r: ValidationResult)
    ensures
        reports(r, error_views(errors@)),
{
    if errors.len() == 0 {
        assert(error_views(errors@) =~= Seq::empty());
        ok()
    } else {
        Err(errors)
    }
}

/// Merges the outcomes of several passes: a success if every pass
/// succeeded, otherwise all their defects, pass by pass.
pub fn combine_results(results: Vec<ValidationResult>) -> (r: ValidationResult)
    ensures
        reports(r, combined(results@)),
{
    let ghost given = results@;
    let mut results = results;
    let mut all_errors: Vec<ValidationError> = Vec::new();
    assert(error_views(all_errors@) =~= Seq::empty());
    while results.len() > 0
        invariant
            error_views(all_errors@) + combined(results@) == combined(given),
        decreases results.len(),
    {
        let ghost before = results@;
        let ghost collected = all_errors@;
        let result = results.remove(0);
        assert(results@ =~= before.drop_first());
        match result {
            Ok(_) => {
                assert(findings(result) + combined(results@) =~= combined(results@));
            },
            Err(mut errors) => {
                let ghost found = errors@;
                all_errors.append(&mut errors);
                proof {
                    lemma_error_views_concat(collected, found);
                }
            },
        }
        assert(error_views(all_errors@) + combined(results@) =~= error_views(collected) + (
        findings(result) + combined(results@)));
    }
    assert(error_views(all_errors@) + combined(results@) =~= error_views(all_errors@));
    outcome(all_errors)
}

/// The defects of a list of references against a graph of `count`
/// nodes: one `MissingNode` for each reference that names no node, in
/// the order of the list.
pub open spec fn missing_in(refs: Seq<u32>, count: nat) -> Seq<ValidationErrorView>
    decreases refs.len(),
{
    if refs.len() == 0 {
        Seq::empty()
    } else if refs.last() >= count {
        missing_in(refs.drop_last(), count).push(
            ValidationErrorView::MissingNode { node_id: refs.last() },
        )
    } else {
        missing_in(refs.drop_last(), count)
    }
}

/// The dangling references of one node: those among its inputs, then
/// those among its outputs.
pub open spec fn node_reference_errors(node: NodeView, count: nat) -> Seq<ValidationErrorView> {
    missing_in(node.inputs, count) + missing_in(node.outputs, count)
}

/// The dangling references of the first `upto` nodes of a graph, node by
/// node in ascending order.
pub open spec fn reference_errors(g: Seq<NodeView>, upto: nat) -> Seq<ValidationErrorView>
    decreases upto,
{
    if upto == 0 {
        Seq::empty()
    } else {
        reference_errors(g, (upto - 1) as nat) + node_reference_errors(g[upto - 1], g.len())
    }
}

/// The arity defect of one node, if it has one: a well-known operation
/// whose input count differs from its fixed arity. Custom operations have
/// no arity to judge against.
pub open spec fn arity_defect(node: NodeView) -> Option<ValidationErrorView> {
    match arity_of(node.op) {
        Some(expected) => if node.inputs.len() != expected {
            Some(
                ValidationErrorView::InvalidOpInputCount {
                    op: name_of(node.op),
                    expected,
                    found: node.inputs.len() as usize,
                },
            )
        } else {
            None
        },
        None => None,
    }
}

/// The arity defects of the first `upto` nodes of a graph, in ascending
/// order of the nodes.
pub open spec fn arity_errors(g: Seq<NodeView>, upto: nat) -> Seq<ValidationErrorView>
    decreases upto,
{
    if upto == 0 {
        Seq::empty()
    } else {
        match arity_defect(g[upto - 1]) {
            Some(defect) => arity_errors(g, (upto - 1) as nat).push(defect),
            None => arity_errors(g, (upto - 1) as nat),
        }
    }
}

/// Appends a `MissingNode` for each reference in `refs` that names no
/// node of a graph of `count` nodes.
fn collect_missing(refs: &Vec<NodeID>, count: u32, errors: &mut Vec<ValidationError>)
    ensures
        error_views(final(errors)@) == error_views(old(errors)@) + missing_in(
            id_numbers(refs@),
            count as nat,
        ),
{
    let ghost numbers = id_numbers(refs@);
    let mut j: usize = 0;
    assert(numbers.take(0) =~= Seq::empty());
    assert(error_views(errors@) + Seq::empty() =~= error_views(errors@));
    while j < refs.len()
        invariant
            j <= refs@.len(),
            numbers == id_numbers(refs@),
            error_views(errors@) == error_views(old(errors)@) + missing_in(
                numbers.take(j as int),
                count as nat,
            ),
        decreases refs@.len() - j,
    {
        let target: u32 = refs[j].id();
        proof {
            assert(numbers.take(j + 1).drop_last() =~= numbers.take(j as int));
            assert(numbers.take(j + 1).last() == target);
        }
        if target >= count {
            let ghost collected = errors@;
            let error = ValidationError::MissingNode { node_id: target };
            errors.push(error);
            proof {
                lemma_error_views_push(collected, error);
                assert(error_views(errors@) =~= error_views(old(errors)@) + missing_in(
                    numbers.take(j + 1),
                    count as nat,
                ));
            }
        }
        j += 1;
    }
    assert(numbers.take(refs@.len() as int) =~= numbers);
}

/// Every defect of a graph: its dangling references, then its cycles,
/// then its arity defects.
pub open spec fn all_errors(g: Seq<NodeView>) -> Seq<ValidationErrorView> {
    reference_errors(g, g.len()) + cycle_errors(g) + arity_errors(g, g.len())
}

/// A valid graph: no dangling reference, no cycle, no arity defect.
pub open spec fn is_valid(g: Seq<NodeView>) -> bool {
    &&& references_resolve(g, g.len())
    &&& forall|path: Seq<u32>| !is_cycle(g, path)
    &&& forall|u: int| 0 <= u < g.len() ==> arity_defect(#[trigger] g[u]) is None
}

/// A validator over one finished graph, which it only reads.
pub struct GraphValidator<'a> {
    graph: &'a Graph,
}

impl<'a> View for GraphValidator<'a> {
    type V = Seq<NodeView>;

    /// The graph under validation.
    closed spec fn view(&self) -> Seq<NodeView> {
        self.graph@
    }
}

impl<'a> GraphValidator<'a> {
    pub fn new(graph: &'a Graph) -> (v: Self)
        ensures
            v@ == graph@,
    {
        GraphValidator { graph }
    }

    /// Referential integrity: reports every input and every output
    /// identifier that names no node of the graph.
    pub fn validate_node_references(&self) -> (r: ValidationResult)
        ensures
            reports(r, reference_errors(self@, self@.len())),
            r is Ok <==> references_resolve(self@, self@.len()),
    {
        let count: u32 = self.graph.node_count();
        proof {
            lemma_reference_pass_decides(self.graph@, self.graph@.len());
        }
        let mut errors: Vec<ValidationError> = Vec::new();
        assert(error_views(errors@) =~= Seq::empty());
        let mut i: u32 = 0;
        while i < count
            invariant
                i <= count,
                count == self.graph@.len(),
                error_views(errors@) == reference_errors(self.graph@, i as nat),
            decreases count - i,
        {
            match self.graph.get_node(NodeID::new(i)) {
                Some(node) => {
                    let ghost before = error_views(errors@);
                    collect_missing(&node.inputs, count, &mut errors);
                    collect_missing(&node.outputs, count, &mut errors);
                    assert(error_views(errors@) =~= before + node_reference_errors(
                        self.graph@[i as int],
                        count as nat,
                    ));
                },
                None => {},
            }
            i += 1;
        }
        outcome(errors)
    }

    /// Acyclicity: reports a `CyclicGraph` for every edge that leads
    /// back to a node whose visit is in progress, with the nodes of the
    /// cycle in the order the traversal entered them: each consumes the
    /// next, and the last consumes the first. A node that lists itself
    /// as an input is a cycle of one node. The pass succeeds exactly on
    /// the graphs without a cycle; every path it reports is a cycle, and
    /// on every cycle of the graph lies an edge that closes a reported
    /// one. On a graph with dangling references the pass looks only at
    /// the edges between nodes that exist.
    pub fn detect_cycles(&self) -> (r: ValidationResult)
        ensures
            reports(r, cycle_errors(self@)),
            r is Ok <==> forall|path: Seq<u32>| !is_cycle(self@, path),
            accounts_for_cycles(self@, findings(r)),
    {
        let count: u32 = self.graph.node_count();
        proof {
            lemma_cycle_pass_decides(self.graph@);
            lemma_cycles_accounted(self.graph@);
        }
        outcome(find_cycles(self.graph))
    }

    /// Arity of the well-known operations: reports every node whose input
    /// count differs from the fixed arity of its operation. Custom
    /// operations are skipped. Nodes carry no shapes, so the shapes of
    /// the inputs are not judged.
    pub fn validate_operation_constraints(&self) -> (r: ValidationResult)
        ensures
            reports(r, arity_errors(self@, self@.len())),
            r is Ok <==> forall|u: int|
                0 <= u < self@.len() ==> arity_defect(#[trigger] self@[u]) is None,
    {
        let count: u32 = self.graph.node_count();
        proof {
            lemma_arity_pass_decides(self.graph@, self.graph@.len());
        }
        let mut errors: Vec<ValidationError> = Vec::new();
        assert(error_views(errors@) =~= Seq::empty());
        let mut i: u32 = 0;
        while i < count
            invariant
                i <= count,
                count == self.graph@.len(),
                error_views(errors@) == arity_errors(self.graph@, i as nat),
            decreases count - i,
        {
            match self.graph.get_node(NodeID::new(i)) {
                Some(node) => {
                    match node.op.arity() {
                        Some(expected) => {
                            let found: usize = node.inputs.len();
                            if found != expected {
                                let ghost collected = errors@;
                                let error = ValidationError::InvalidOpInputCount {
                                    op: node.op.name(),
                                    expected,
                                    found,
                                };
                                errors.push(error);
                                proof {
                                    lemma_error_views_push(collected, error);
                                }
                            }
                        },
                        None => {},
                    }
                },
                None => {},
            }
            i += 1;
        }
        outcome(errors)
    }

    /// Runs every pass, whatever the earlier ones found, and merges
    /// their outcomes: referential integrity, then acyclicity, then
    /// arity.
    pub fn validate(&self) -> (r: ValidationResult)
        ensures
            reports(r, all_errors(self@)),
            r is Ok <==> is_valid(self@),
    {
        let count: u32 = self.graph.node_count();
        proof {
            lemma_valid_graphs(self.graph@);
        }
        let references = self.validate_node_references();
        let cycles = self.detect_cycles();
        let constraints = self.validate_operation_constraints();
        let mut results: Vec<ValidationResult> = Vec::new();
        results.push(references);
        results.push(cycles);
        results.push(constraints);
        proof {
            lemma_combined_three(results@);
        }
        combine_results(results)
    }
}

/// The defects of three outcomes are those of the first, then the
/// second, then the third.
pub proof fn lemma_combined_three(results: Seq<ValidationResult>)
    requires
        results.len() == 3,
    ensures
        combined(results) == findings(results[0]) + findings(results[1]) + findings(results[2]),
{
    let rest = results.drop_first();
    let last = rest.drop_first();
    assert(combined(last.drop_first()) =~= Seq::empty());
    assert(combined(last) =~= findings(results[2]));
    assert(combined(rest) =~= findings(results[1]) + findings(results[2]));
    assert(combined(results) =~= findings(results[0]) + findings(results[1]) + findings(
        results[2],
    ));
}

/// Every reference of the list names a node of a graph of `count` nodes.
pub open spec fn resolves(refs: Seq<u32>, count: nat) -> bool {
    forall|i: int| 0 <= i < refs.len() ==> (#[trigger] refs[i]) < count
}

/// The references of the list that name no node of a graph of `count`
/// nodes, in the order of the list.
pub open spec fn dangling(refs: Seq<u32>, count: nat) -> Seq<u32> {
    refs.filter(|r: u32| r >= count)
}

/// There is exactly one `MissingNode` for each dangling reference, in
/// the order of the references.
pub proof fn lemma_one_error_per_dangling(refs: Seq<u32>, count: nat)
    ensures
        missing_in(refs, count) == dangling(refs, count).map_values(
            |r: u32| ValidationErrorView::MissingNode { node_id: r },
        ),
    decreases refs.len(),
{
    reveal(Seq::filter);
    if refs.len() > 0 {
        lemma_one_error_per_dangling(refs.drop_last(), count);
    }
    assert(missing_in(refs, count) =~= dangling(refs, count).map_values(
        |r: u32| ValidationErrorView::MissingNode { node_id: r },
    ));
}

/// A list of references gives no error exactly when each of them names
/// a node.
pub proof fn lemma_missing_none(refs: Seq<u32>, count: nat)
    ensures
        missing_in(refs, count).len() == 0 <==> resolves(refs, count),
    decreases refs.len(),
{
    if refs.len() > 0 {
        let rest = refs.drop_last();
        lemma_missing_none(rest, count);
        if resolves(rest, count) && refs.last() < count {
            assert forall|i: int| 0 <= i < refs.len() implies (#[trigger] refs[i]) < count by {
                if i < refs.len() - 1 {
                    assert(rest[i] < count);
                }
            }
        }
        if resolves(refs, count) {
            assert forall|i: int| 0 <= i < rest.len() implies (#[trigger] rest[i]) < count by {
                assert(refs[i] < count);
            }
        }
    }
}

/// Every input and every output of the first `upto` nodes names a node
/// of the graph.
pub open spec fn references_resolve(g: Seq<NodeView>, upto: nat) -> bool {
    forall|u: int|
        0 <= u < upto ==> resolves((#[trigger] g[u]).inputs, g.len()) && resolves(
            g[u].outputs,
            g.len(),
        )
}

/// The reference pass finds nothing exactly when the graph has no
/// dangling reference.
pub proof fn lemma_reference_pass_decides(g: Seq<NodeView>, upto: nat)
    ensures
        reference_errors(g, upto).len() == 0 <==> references_resolve(g, upto),
    decreases upto,
{
    if upto > 0 {
        lemma_reference_pass_decides(g, (upto - 1) as nat);
        lemma_missing_none(g[upto - 1].inputs, g.len());
        lemma_missing_none(g[upto - 1].outputs, g.len());
        if references_resolve(g, upto) {
            assert(references_resolve(g, (upto - 1) as nat));
            assert(resolves(g[upto - 1].inputs, g.len()));
        }
    }
}

/// A custom operation never has an arity defect, whatever its inputs.
pub proof fn lemma_custom_exempt(node: NodeView)
    requires
        node.op is Custom,
    ensures
        arity_defect(node) is None,
{
}

/// The arity pass finds nothing exactly when no node has an arity
/// defect.
pub proof fn lemma_arity_pass_decides(g: Seq<NodeView>, upto: nat)
    ensures
        arity_errors(g, upto).len() == 0 <==> forall|u: int|
            0 <= u < upto ==> arity_defect(#[trigger] g[u]) is None,
    decreases upto,
{
    if upto > 0 {
        lemma_arity_pass_decides(g, (upto - 1) as nat);
    }
}

/// Validation depends on the graph alone: two outcomes of `validate` on
/// the same graph carry the same defects in the same order.
pub proof fn lemma_validate_repeatable(
    first: ValidationResult,
    second: ValidationResult,
    g: Seq<NodeView>,
)
    requires
        reports(first, all_errors(g)),
        reports(second, all_errors(g)),
    ensures
        first is Ok <==> second is Ok,
        findings(first) == findings(second),
{
}

/// Validation finds nothing exactly when the graph is valid.
pub proof fn lemma_valid_graphs(g: Seq<NodeView>)
    requires
        g.len() <= u32::MAX,
    ensures
        all_errors(g).len() == 0 <==> is_valid(g),
{
    lemma_reference_pass_decides(g, g.len());
    lemma_cycle_pass_decides(g);
    lemma_arity_pass_decides(g, g.len());
}

/// Where the validator is in its walk over the graph.
pub struct ValidationContext {
    current_node: Option<NodeID>,
}

impl View for ValidationContext {
    type V = Option<NodeID>;

    /// The node under examination, if any.
    closed spec fn view(&self) -> Option<NodeID> {
        self.current_node
    }
}

impl ValidationContext {
    pub fn new() -> (c: Self)
        ensures
            c@ is None,
    {
        ValidationContext { current_node: None }
    }

    pub fn set_current_node(&mut self, node_id: NodeID)
        ensures
            final(self)@ == Some(node_id),
    {
        self.current_node = Some(node_id)
    }

    pub fn clear_current_node(&mut self)
        ensures
            final(self)@ is None,
    {
        self.current_node = None
    }

    pub fn current_node(&self) -> (r: Option<NodeID>)
        ensures
            r == self@,
    {
        self.current_node
    }
}

} // verus!
