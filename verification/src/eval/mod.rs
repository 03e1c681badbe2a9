//! Node evaluation results and the LLM node evaluators.
use vstd::prelude::*;

pub mod llm;

verus! {

/// The result of evaluating one node: where to go next, the label that fired,
/// the confidence in thousandths, and a human-readable rationale.
#[derive(Debug)]
pub struct Decision {
    /// Next node or leaf id.
    pub goto: String,
    /// The label that fired (`"default"` when the default branch was taken).
    pub label: String,
    /// Confidence in thousandths (0 to 1000).
    pub confidence_milli: u32,
    /// Why this branch was taken.
    pub rationale: String,
}

/// A decision as (goto, label, confidence in thousandths, rationale).
pub type DecisionV = (Seq<char>, Seq<char>, nat, Seq<char>);

impl View for Decision {
    type V = DecisionV;

    open spec fn view(&self) -> DecisionV {
        (self.goto@, self.label@, self.confidence_milli as nat, self.rationale@)
    }
}

} // verus!
