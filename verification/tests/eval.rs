use rquant::eval::llm::cache::FileCache;
use rquant::eval::llm::prompt::SYSTEM_PROMPT;
use rquant::eval::llm::{decision_from_answer, default_decision, lookup_pair, LlmConfig, LlmEvaluator, LlmNode, StubLlm};

fn labels() -> Vec<(String, String)> {
    vec![("go".to_string(), "leaf_l".to_string())]
}

fn node<'a>(lbl: &'a [(String, String)]) -> LlmNode<'a> {
    LlmNode { inputs: &[], prompt: "q", labels: lbl, default: "leaf_f" }
}

fn stub(id: &str, answer: &str) -> StubLlm {
    StubLlm { answers: vec![(id.to_string(), answer.to_string())] }
}

#[test]
fn stub_known_label_maps_goto() {
    let lbl = labels();
    let d = stub("n", "go").eval("n", &node(&lbl));
    assert_eq!(d.goto, "leaf_l");
    assert_eq!(d.label, "go");
    assert_eq!(d.confidence_milli, 900);
    assert_eq!(d.rationale, "LLM: stub");
}

#[test]
fn stub_error_falls_back_to_default() {
    let lbl = labels();
    let d = stub("n", "ERROR").eval("n", &node(&lbl));
    assert_eq!(d.goto, "leaf_f");
    assert_eq!(d.label, "default");
    assert_eq!(d.rationale, "LLM stub error: default branch");
}

#[test]
fn stub_unknown_label_or_node_takes_default() {
    let lbl = labels();
    let d = stub("n", "up").eval("n", &node(&lbl));
    assert_eq!(d.goto, "leaf_f");
    assert_eq!(d.rationale, "LLM stub no-answer: default branch");
    let d2 = stub("other", "go").eval("n", &node(&lbl));
    assert_eq!(d2.label, "default");
    assert_eq!(d2.confidence_milli, 0);
}

#[test]
fn disabled_returns_default() {
    let lbl = labels();
    let d = LlmEvaluator::Disabled.eval_offline("n", &node(&lbl)).unwrap();
    assert_eq!(d.goto, "leaf_f");
    assert_eq!(d.label, "default");
    assert_eq!(d.rationale, "LLM disabled: default branch");
}

#[test]
fn stub_via_enum_returns_label() {
    let lbl = labels();
    let ev = LlmEvaluator::Stub(stub("n", "go"));
    let d = ev.eval_offline("n", &node(&lbl)).unwrap();
    assert_eq!(d.goto, "leaf_l");
}

#[test]
fn remote_evaluator_is_not_offline() {
    let lbl = labels();
    let cfg = LlmConfig {
        base_url: "https://a".to_string(),
        api_key: "k".to_string(),
        model: "m".to_string(),
        timeout_secs: 30,
        max_retries: 2,
        cache_dir: ".cache".to_string(),
    };
    assert!(LlmEvaluator::OpenAi(cfg).eval_offline("n", &node(&lbl)).is_none());
}

#[test]
fn answer_decision_tags_cached_and_falls_back() {
    let lbl = labels();
    let n = node(&lbl);
    let d = decision_from_answer(&n, "go", 700, "why", true);
    assert_eq!((d.goto.as_str(), d.label.as_str(), d.confidence_milli, d.rationale.as_str()), ("leaf_l", "go", 700, "LLM(cached): why"));
    let d2 = decision_from_answer(&n, "nope", 500, "r", false);
    assert_eq!((d2.goto.as_str(), d2.label.as_str(), d2.rationale.as_str()), ("leaf_f", "nope", "LLM: r"));
    let d3 = default_decision(&n, "LLM fallback(x)");
    assert_eq!(d3.rationale, "LLM fallback(x): default branch");
}

#[test]
fn key_is_stable_and_sensitive() {
    let base = FileCache::key("m", "https://a", "sys", "n", "rendered");
    assert_eq!(base, FileCache::key("m", "https://a", "sys", "n", "rendered"));
    assert_eq!(base.len(), 64);
    assert_ne!(base, FileCache::key("m2", "https://a", "sys", "n", "rendered"));
    assert_ne!(base, FileCache::key("m", "https://b", "sys", "n", "rendered"));
    assert_ne!(base, FileCache::key("m", "https://a", "sys2", "n", "rendered"));
    assert_ne!(base, FileCache::key("m", "https://a", "sys", "n2", "rendered"));
    assert_ne!(base, FileCache::key("m", "https://a", "sys", "n", "rendered2"));
}

#[test]
fn key_separates_parts_with_zero_bytes() {
    assert_ne!(FileCache::key("ab", "c", "", "", ""), FileCache::key("a", "bc", "", "", ""));
    let k = FileCache::key("", "", "", "", "");
    assert!(k.chars().all(|c| c.is_ascii_digit() || ('a'..='f').contains(&c)));
}

#[test]
fn key_known_digest() {
    // SHA-256 of five zero bytes.
    assert_eq!(
        FileCache::key("", "", "", "", ""),
        "8855508aade16ec573d21e6a485dfd0a7624085c1a14b5ecdd6485de0c6839a4"
    );
}

#[test]
fn path_for_joins_dir_and_key() {
    assert_eq!(FileCache::new("cache".to_string()).path_for("abc"), "cache/abc.json");
    assert_eq!(FileCache::new("cache/".to_string()).path_for("abc"), "cache/abc.json");
    assert_eq!(FileCache::new(String::new()).path_for("abc"), "abc.json");
}

#[test]
fn system_prompt_asks_for_json_probs() {
    assert!(SYSTEM_PROMPT.starts_with("You are a financial-analysis classifier."));
    assert!(SYSTEM_PROMPT.contains("{\"probs\""));
}

use rquant::eval::llm::prompt::render_user;
use rquant::eval::llm::{cached_decision, fallback_decision};

fn strs(v: &[&str]) -> Vec<String> {
    v.iter().map(|s| s.to_string()).collect()
}

#[test]
fn render_includes_prompt_sorted_labels_and_price() {
    let labels = vec![("b".to_string(), "x".to_string()), ("a".to_string(), "y".to_string())];
    let n = LlmNode { inputs: &[], prompt: "trend?", labels: &labels, default: "d" };
    let s = render_user(&n, &strs(&["1.0000", "2.0000", "3.0000"]), None, &[]);
    assert!(s.contains("Question: trend?"));
    assert!(s.contains("Allowed labels: [a, b]"));
    assert!(s.contains("Latest close: 3.0000"));
}

#[test]
fn render_news_inputs_present_and_absent() {
    let labels = vec![("go".to_string(), "x".to_string())];
    let inputs = strs(&["news_score", "recent_headlines"]);
    let n = LlmNode { inputs: &inputs, prompt: "q", labels: &labels, default: "d" };
    let s = render_user(&n, &strs(&["1.0000"]), Some("0.5000".to_string()), &strs(&["H"]));
    assert!(s.contains("news_score: 0.5000"));
    assert!(s.contains("recent_headlines: H"));
    let s2 = render_user(&n, &strs(&["1.0000"]), None, &[]);
    assert!(s2.contains("news_score: none"));
    assert!(s2.contains("recent_headlines: none"));
}

#[test]
fn render_exact_text_keeps_last_twenty_closes() {
    let labels = vec![("up".to_string(), "l".to_string()), ("down".to_string(), "s".to_string()), ("up".to_string(), "z".to_string())];
    let inputs = strs(&["volume_rank", "recent_headlines"]);
    let n = LlmNode { inputs: &inputs, prompt: "dir?", labels: &labels, default: "f" };
    let closes: Vec<String> = (1..=22).map(|i| format!("{i}")).collect();
    let s = render_user(&n, &closes, None, &strs(&["A", "B"]));
    let recent: Vec<String> = (3..=22).map(|i| format!("{i}")).collect();
    let expected = format!(
        "Question: dir?\nAllowed labels: [down, up]\nRecent primary closes: [{}]\nLatest close: 22\nvolume_rank: unavailable\nrecent_headlines: A; B\n",
        recent.join(", ")
    );
    assert_eq!(s, expected);
    let empty = render_user(&n, &[], None, &[]);
    assert_eq!(empty, "Question: dir?\nAllowed labels: [down, up]\nRecent primary closes: []\nvolume_rank: unavailable\nrecent_headlines: none\n");
}

#[test]
fn shared_judge_nodes_render_to_same_cache_key() {
    let inputs = strs(&["news_score"]);
    let la = vec![("ok".to_string(), "leaf_l".to_string()), ("bad".to_string(), "leaf_x".to_string())];
    let lb = vec![("bad".to_string(), "leaf_y".to_string()), ("ok".to_string(), "leaf_s".to_string())];
    let na = LlmNode { inputs: &inputs, prompt: "veto?", labels: &la, default: "leaf_f" };
    let nb = LlmNode { inputs: &inputs, prompt: "veto?", labels: &lb, default: "leaf_l" };
    let closes = strs(&["1.0000"]);
    let ra = render_user(&na, &closes, None, &[]);
    let rb = render_user(&nb, &closes, None, &[]);
    assert_eq!(ra, rb);
    assert_eq!(FileCache::key("m", "https://a", "sys", "veto", &ra), FileCache::key("m", "https://a", "sys", "veto", &rb));
}

#[test]
fn cached_answer_only_for_known_label() {
    let lbl = labels();
    let n = node(&lbl);
    let d = cached_decision(&n, "go", 800, "r").unwrap();
    assert_eq!((d.goto.as_str(), d.rationale.as_str(), d.confidence_milli), ("leaf_l", "LLM(cached): r", 800));
    assert!(cached_decision(&n, "stale", 800, "r").is_none());
    let f = fallback_decision(&n, "eval error: timeout");
    assert_eq!((f.goto.as_str(), f.label.as_str(), f.rationale.as_str()), ("leaf_f", "default", "LLM fallback(eval error: timeout): default branch"));
}

#[test]
fn path_for_absolute_key_replaces_dir() {
    assert_eq!(FileCache::new("cache".to_string()).path_for("/abs/k"), "/abs/k.json");
}

#[test]
fn distinct_labels_look_up_as_a_map() {
    let a = vec![("x".to_string(), "1".to_string()), ("y".to_string(), "2".to_string())];
    let b = vec![("y".to_string(), "2".to_string()), ("x".to_string(), "1".to_string())];
    for k in ["x", "y", "z"] {
        assert_eq!(lookup_pair(&a, k), lookup_pair(&b, k));
    }
    assert_eq!(lookup_pair(&a, "y").map(|s| s.as_str()), Some("2"));
    assert!(lookup_pair(&a, "z").is_none());
}
