//! LLM decision nodes: the node view, the configuration, the fallback rules and
//! the offline evaluators (disabled and stub).
use vstd::prelude::*;
use crate::eval::{Decision, DecisionV};
use crate::text::{chars_eq_str, chars_of, push_str};

pub mod cache;
pub mod prompt;

verus! {

/// A borrowed view of an LLM node: its inputs, its question, its label to
/// goto map (the first entry for a label counts) and its default goto.
pub struct LlmNode<'a> {
    pub inputs: &'a [String],
    pub prompt: &'a str,
    pub labels: &'a [(String, String)],
    pub default: &'a str,
}

/// Configuration of the OpenAI-compatible LLM service.
pub struct LlmConfig {
    pub base_url: String,
    pub api_key: String,
    pub model: String,
    pub timeout_secs: u64,
    pub max_retries: u32,
    pub cache_dir: String,
}

/// The views of (label, goto) pairs.
pub open spec fn label_views(labels: Seq<(String, String)>) -> Seq<(Seq<char>, Seq<char>)> {
    labels.map_values(|p: (String, String)| (p.0@, p.1@))
}

/// No key occurs twice among the pairs (as in a map).
pub open spec fn keys_distinct(pairs: Seq<(Seq<char>, Seq<char>)>) -> bool {
    forall|i: int, j: int| 0 <= i < j < pairs.len() ==> #[trigger] pairs[i].0 != #[trigger] pairs[j].0
}

impl<'a> LlmNode<'a> {
    /// The labels form a map: no label occurs twice.
    pub open spec fn wf(&self) -> bool {
        keys_distinct(label_views(self.labels@))
    }
}

/// The value of the first pair whose key is `k`.
pub open spec fn lookup(pairs: Seq<(Seq<char>, Seq<char>)>, k: Seq<char>) -> Option<Seq<char>>
    decreases pairs.len(),
{
    if pairs.len() == 0 {
        None
    } else if pairs[0].0 == k {
        Some(pairs[0].1)
    } else {
        lookup(pairs.drop_first(), k)
    }
}

/// The goto of a label: the node's mapping, or its default when unmapped.
pub open spec fn goto_of(labels: Seq<(Seq<char>, Seq<char>)>, default: Seq<char>, label: Seq<char>) -> Seq<char> {
    match lookup(labels, label) {
        Some(g) => g,
        None => default,
    }
}

/// The fallback decision: the default goto, label `"default"`, confidence 0.
pub open spec fn default_decision_spec(default: Seq<char>, why: Seq<char>) -> DecisionV {
    (default, "default"@, 0, why + ": default branch"@)
}

/// The decision for an LLM answer `label`.
pub open spec fn answer_decision_spec(
    labels: Seq<(Seq<char>, Seq<char>)>,
    default: Seq<char>,
    label: Seq<char>,
    confidence_milli: nat,
    reason: Seq<char>,
    cached: bool,
) -> DecisionV {
    let tag = if cached { "LLM(cached)"@ } else { "LLM"@ };
    (goto_of(labels, default, label), label, confidence_milli, tag + ": "@ + reason)
}

/// Looks a key up in (key, value) string pairs; the first match counts.
pub fn lookup_pair<'a>(pairs: &'a [(String, String)], k: &str) -> (r: Option<&'a String>)
    ensures
        match r {
            Some(v) => lookup(label_views(pairs@), k@) == Some(v@),
            None => lookup(label_views(pairs@), k@) is None,
        },
{
    let ghost pv = label_views(pairs@);
    let kc = chars_of(k);
    let mut i: usize = 0;
    assert(pv.skip(0) =~= pv);
    while i < pairs.len()
        invariant
            i <= pairs.len(),
            pv == label_views(pairs@),
            kc@ == k@,
            lookup(pv.skip(i as int), k@) == lookup(pv, k@),
        decreases pairs.len() - i,
    {
        assert(pv.skip(i as int)[0] == pv[i as int]);
        if chars_eq_str(kc.as_slice(), pairs[i].0.as_str()) {
            return Some(&pairs[i].1);
        }
        assert(pv.skip(i as int).drop_first() =~= pv.skip(i + 1));
        i += 1;
    }
    None
}

fn copy_str(s: &str) -> (t: String)
    ensures
        t@ == s@,
{
    String::from_str(s)
}

/// The decision taken when the LLM is unavailable or failed: the node's default.
pub fn default_decision(node: &LlmNode, why: &str) -> (d: Decision)
    ensures
        d@ == default_decision_spec(node.default@, why@),
{
    let mut rationale = copy_str(why);
    push_str(&mut rationale, ": default branch");
    Decision {
        goto: copy_str(node.default),
        label: String::from_str("default"),
        confidence_milli: 0,
        rationale,
    }
}

/// Maps an LLM answer label to a decision: the label's goto, or the node's
/// default when the label is unmapped.
pub fn decision_from_answer(node: &LlmNode, label: &str, confidence_milli: u32, reason: &str, cached: bool) -> (d: Decision)
    requires
        node.wf(),
    ensures
        d@ == answer_decision_spec(label_views(node.labels@), node.default@, label@, confidence_milli as nat, reason@, cached),
{
    let goto = match lookup_pair(node.labels, label) {
        Some(g) => copy_str(g.as_str()),
        None => copy_str(node.default),
    };
    let mut rationale = if cached { String::from_str("LLM(cached)") } else { String::from_str("LLM") };
    push_str(&mut rationale, ": ");
    push_str(&mut rationale, reason);
    Decision { goto, label: copy_str(label), confidence_milli, rationale }
}

/// Test double: a fixed answer label per node id; the answer `"ERROR"`
/// simulates a failed call.
pub struct StubLlm {
    pub answers: Vec<(String, String)>,
}

impl StubLlm {
    /// The answers form a map: no node id occurs twice.
    pub open spec fn wf(&self) -> bool {
        keys_distinct(label_views(self.answers@))
    }
}

/// What the stub decides for a node.
pub open spec fn stub_decision_spec(
    answers: Seq<(Seq<char>, Seq<char>)>,
    node_id: Seq<char>,
    labels: Seq<(Seq<char>, Seq<char>)>,
    default: Seq<char>,
) -> DecisionV {
    match lookup(answers, node_id) {
        Some(l) => if l == "ERROR"@ {
            default_decision_spec(default, "LLM stub error"@)
        } else if lookup(labels, l) is Some {
            answer_decision_spec(labels, default, l, 900, "stub"@, false)
        } else {
            default_decision_spec(default, "LLM stub no-answer"@)
        },
        None => default_decision_spec(default, "LLM stub no-answer"@),
    }
}

impl StubLlm {
    /// The stub's decision for node `node_id`: its answer label's goto with
    /// confidence 0.9; the default on `"ERROR"`, an unknown label or no answer.
    pub fn eval(&self, node_id: &str, node: &LlmNode) -> (d: Decision)
        requires
            self.wf(),
            node.wf(),
        ensures
            d@ == stub_decision_spec(label_views(self.answers@), node_id@, label_views(node.labels@), node.default@),
    {
        match lookup_pair(self.answers.as_slice(), node_id) {
            Some(l) => {
                if chars_eq_str(chars_of(l.as_str()).as_slice(), "ERROR") {
                    default_decision(node, "LLM stub error")
                } else if lookup_pair(node.labels, l.as_str()).is_some() {
                    decision_from_answer(node, l.as_str(), 900, "stub", false)
                } else {
                    default_decision(node, "LLM stub no-answer")
                }
            },
            None => default_decision(node, "LLM stub no-answer"),
        }
    }
}

/// How LLM nodes are evaluated: by the remote service, not at all (default
/// branch), or by a stub.
pub enum LlmEvaluator {
    OpenAi(LlmConfig),
    Disabled,
    Stub(StubLlm),
}

impl LlmEvaluator {
    /// The decision for a node when no remote call is involved: the default
    /// branch when disabled, the stub's answer for a stub; `None` for the
    /// remote service, whose answer the caller must fetch.
    pub fn eval_offline(&self, node_id: &str, node: &LlmNode) -> (r: Option<Decision>)
        requires
            node.wf(),
            self matches LlmEvaluator::Stub(s) ==> s.wf(),
        ensures
            match self {
                LlmEvaluator::OpenAi(_) => r is None,
                LlmEvaluator::Disabled => r matches Some(d) && d@ == default_decision_spec(node.default@, "LLM disabled"@),
                LlmEvaluator::Stub(s) => r matches Some(d) && d@ == stub_decision_spec(
                    label_views(s.answers@), node_id@, label_views(node.labels@), node.default@),
            },
    {
        match self {
            LlmEvaluator::OpenAi(_) => None,
            LlmEvaluator::Disabled => Some(default_decision(node, "LLM disabled")),
            LlmEvaluator::Stub(s) => Some(s.eval(node_id, node)),
        }
    }
}

/// The decision for a cached answer: the answer's goto, tagged as cached,
/// when its label belongs to the node; `None` (call the service) otherwise.
pub fn cached_decision(node: &LlmNode, label: &str, confidence_milli: u32, reason: &str) -> (r: Option<Decision>)
    requires
        node.wf(),
    ensures
        match lookup(label_views(node.labels@), label@) {
            Some(_) => r matches Some(d) && d@ == answer_decision_spec(
                label_views(node.labels@), node.default@, label@, confidence_milli as nat, reason@, true),
            None => r is None,
        },
{
    if lookup_pair(node.labels, label).is_some() {
        Some(decision_from_answer(node, label, confidence_milli, reason, true))
    } else {
        None
    }
}

/// The decision when the service failed: the node's default, with the error.
pub fn fallback_decision(node: &LlmNode, error_text: &str) -> (d: Decision)
    ensures
        d@ == default_decision_spec(node.default@, "LLM fallback("@ + error_text@ + ")"@),
{
    let mut why = String::from_str("LLM fallback(");
    push_str(&mut why, error_text);
    push_str(&mut why, ")");
    default_decision(node, why.as_str())
}

/// Law: pairs with distinct keys behave as a map: each key looks up its own
/// value, whatever the order of the pairs, and a key that no pair has looks
/// up nothing.
pub proof fn law_distinct_pairs_are_a_map(pairs: Seq<(Seq<char>, Seq<char>)>, k: Seq<char>)
    requires
        keys_distinct(pairs),
    ensures
        forall|i: int| 0 <= i < pairs.len() ==> lookup(pairs, #[trigger] pairs[i].0) == Some(pairs[i].1),
        (forall|i: int| 0 <= i < pairs.len() ==> #[trigger] pairs[i].0 != k) ==> lookup(pairs, k) is None,
    decreases pairs.len(),
{
    if pairs.len() > 0 {
        let rest = pairs.drop_first();
        assert(keys_distinct(rest)) by {
            assert forall|i: int, j: int| 0 <= i < j < rest.len() implies #[trigger] rest[i].0 != #[trigger] rest[j].0 by {
                assert(rest[i] == pairs[i + 1] && rest[j] == pairs[j + 1]);
            }
        }
        law_distinct_pairs_are_a_map(rest, k);
        assert forall|i: int| 0 <= i < pairs.len() implies lookup(pairs, #[trigger] pairs[i].0) == Some(pairs[i].1) by {
            if i > 0 {
                assert(pairs[0].0 != pairs[i].0);
                assert(rest[i - 1] == pairs[i]);
                assert(lookup(rest, rest[i - 1].0) == Some(rest[i - 1].1));
            }
        }
        if forall|i: int| 0 <= i < pairs.len() ==> #[trigger] pairs[i].0 != k {
            assert(pairs[0].0 != k);
            assert forall|i: int| 0 <= i < rest.len() implies #[trigger] rest[i].0 != k by {
                assert(rest[i] == pairs[i + 1]);
            }
        }
    }
}

} // verus!
