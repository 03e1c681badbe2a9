//! The LLM protocol's fixed texts and request URL.
use vstd::prelude::*;
use crate::data::sina::{strip_trailing, trim_trailing_slashes};
use crate::eval::llm::{label_views, LlmNode};
use crate::text::{chars_eq_str, chars_of, lex_lt, push_str, str_lt, string_views};

verus! {

/// The system prompt sent with every request (part of the cache key).
pub const SYSTEM_PROMPT: &'static str = "You are a financial-analysis classifier. Assign a probability between 0 and 1 to EVERY allowed label; probabilities should sum to 1. Respond ONLY with a JSON object: {\"probs\": {<label>: <number 0..1>, ...}, \"reason\": <short string>}.";

/// The chat-completions endpoint under a base URL (its trailing slashes dropped).
pub fn chat_completions_url(base_url: &str) -> (url: String)
    ensures
        url@ == strip_trailing(base_url@, '/') + "/chat/completions"@,
{
    let mut url = trim_trailing_slashes(base_url);
    push_str(&mut url, "/chat/completions");
    url
}


/// The parts joined with `sep` between consecutive parts.
pub open spec fn join(parts: Seq<Seq<char>>, sep: Seq<char>) -> Seq<char>
    decreases parts.len(),
{
    if parts.len() == 0 {
        Seq::empty()
    } else if parts.len() == 1 {
        parts[0]
    } else {
        join(parts.drop_last(), sep) + sep + parts.last()
    }
}

/// Index of the first entry of `s` not ordered before `x`, from `i` on.
pub open spec fn insert_pos_from(s: Seq<Seq<char>>, x: Seq<char>, i: int) -> int
    decreases s.len() - i,
{
    if i < 0 || i >= s.len() {
        s.len() as int
    } else if !lex_lt(s[i], x) {
        i
    } else {
        insert_pos_from(s, x, i + 1)
    }
}

/// `x` added to an ascending list unless already there.
pub open spec fn insert_sorted(s: Seq<Seq<char>>, x: Seq<char>) -> Seq<Seq<char>> {
    let j = insert_pos_from(s, x, 0);
    if j < s.len() && s[j] == x {
        s
    } else {
        s.insert(j, x)
    }
}

/// The distinct keys in ascending order.
pub open spec fn sorted_keys(ks: Seq<Seq<char>>) -> Seq<Seq<char>>
    decreases ks.len(),
{
    if ks.len() == 0 {
        Seq::empty()
    } else {
        insert_sorted(sorted_keys(ks.drop_last()), ks.last())
    }
}

/// The last `n` entries (all of them when there are fewer).
pub open spec fn last_n(s: Seq<Seq<char>>, n: nat) -> Seq<Seq<char>> {
    if s.len() <= n { s } else { s.skip(s.len() - n) }
}

/// The prompt line for one declared input.
pub open spec fn input_line(input: Seq<char>, news_score: Option<Seq<char>>, headlines: Seq<Seq<char>>) -> Seq<char> {
    if input == "news_score"@ {
        "news_score: "@ + match news_score {
            Some(v) => v,
            None => "none"@,
        } + "\n"@
    } else if input == "recent_headlines"@ {
        "recent_headlines: "@ + if headlines.len() > 0 { join(headlines, "; "@) } else { "none"@ } + "\n"@
    } else {
        input + ": unavailable\n"@
    }
}

/// The lines for the declared inputs, in declaration order.
pub open spec fn input_lines(inputs: Seq<Seq<char>>, news_score: Option<Seq<char>>, headlines: Seq<Seq<char>>) -> Seq<char>
    decreases inputs.len(),
{
    if inputs.len() == 0 {
        Seq::empty()
    } else {
        input_lines(inputs.drop_last(), news_score, headlines) + input_line(inputs.last(), news_score, headlines)
    }
}

/// The user message of an LLM node.
pub open spec fn render_spec(
    prompt: Seq<char>,
    label_keys: Seq<Seq<char>>,
    closes: Seq<Seq<char>>,
    inputs: Seq<Seq<char>>,
    news_score: Option<Seq<char>>,
    headlines: Seq<Seq<char>>,
) -> Seq<char> {
    "Question: "@ + prompt + "\n"@
        + "Allowed labels: ["@ + join(sorted_keys(label_keys), ", "@) + "]\n"@
        + "Recent primary closes: ["@ + join(last_n(closes, 20), ", "@) + "]\n"@
        + (if closes.len() > 0 { "Latest close: "@ + closes.last() + "\n"@ } else { Seq::empty() })
        + input_lines(inputs, news_score, headlines)
}

/// The view of an optional string.
pub open spec fn opt_view(o: Option<String>) -> Option<Seq<char>> {
    match o {
        Some(v) => Some(v@),
        None => None,
    }
}

/// Appends `parts` joined with `sep`.
fn push_joined(s: &mut String, parts: &[String], sep: &str)
    ensures
        final(s)@ == old(s)@ + join(string_views(parts@), sep@),
{
    let ghost pv = string_views(parts@);
    let ghost base = s@;
    let mut i: usize = 0;
    assert(pv.take(0) =~= Seq::<Seq<char>>::empty());
    while i < parts.len()
        invariant
            i <= parts.len(),
            pv == string_views(parts@),
            s@ == base + join(pv.take(i as int), sep@),
        decreases parts.len() - i,
    {
        assert(pv.take(i + 1).drop_last() =~= pv.take(i as int));
        assert(pv.take(i + 1).last() == parts@[i as int]@);
        if i > 0 {
            push_str(s, sep);
        } else {
            assert(pv.take(i + 1) =~= seq![pv[0]]);
        }
        push_str(s, parts[i].as_str());
        i += 1;
    }
    assert(pv.take(parts.len() as int) =~= pv);
}

proof fn lemma_insert_pos_bounds(s: Seq<Seq<char>>, x: Seq<char>, i: int)
    requires
        0 <= i <= s.len(),
    ensures
        i <= insert_pos_from(s, x, i) <= s.len(),
    decreases s.len() - i,
{
    if i < s.len() && lex_lt(s[i], x) {
        lemma_insert_pos_bounds(s, x, i + 1);
    }
}

/// Adds `x` to an ascending key list the way `insert_sorted` does.
fn insert_key(v: &mut Vec<String>, x: &String)
    ensures
        string_views(final(v)@) == insert_sorted(string_views(old(v)@), x@),
{
    let ghost sv = string_views(v@);
    let mut j: usize = 0;
    while j < v.len() && str_lt(v[j].as_str(), x.as_str())
        invariant
            j <= v.len(),
            sv == string_views(v@),
            insert_pos_from(sv, x@, j as int) == insert_pos_from(sv, x@, 0),
        decreases v.len() - j,
    {
        assert(sv[j as int] == v@[j as int]@);
        j += 1;
    }
    proof {
        if j < v.len() {
            assert(sv[j as int] == v@[j as int]@);
        }
    }
    if j < v.len() && chars_eq_str(chars_of(v[j].as_str()).as_slice(), x.as_str()) {
        return;
    }
    v.insert(j, String::from_str(x.as_str()));
    assert(string_views(v@) =~= sv.insert(j as int, x@));
}

/// Renders the user message of an LLM node: the question, the allowed
/// labels (distinct, ascending), the last 20 primary closes and the latest
/// one (already formatted to four decimals), then one line per declared
/// input: the latest news score, the recent headlines joined with `"; "`
/// (`none` when there is no news), or `unavailable`.
pub fn render_user(node: &LlmNode, closes: &[String], news_score: Option<String>, headlines: &[String]) -> (s: String)
    requires
        node.wf(),
    ensures
        s@ == render_spec(
            node.prompt@,
            label_views(node.labels@).map_values(|p: (Seq<char>, Seq<char>)| p.0),
            string_views(closes@),
            string_views(node.inputs@),
            opt_view(news_score),
            string_views(headlines@),
        ),
{
    let ghost keys = label_views(node.labels@).map_values(|p: (Seq<char>, Seq<char>)| p.0);
    let mut s = String::from_str("Question: ");
    push_str(&mut s, node.prompt);
    push_str(&mut s, "\n");
    let mut sorted: Vec<String> = Vec::new();
    let mut i: usize = 0;
    assert(keys.take(0) =~= Seq::<Seq<char>>::empty());
    assert(string_views(sorted@) =~= Seq::<Seq<char>>::empty());
    while i < node.labels.len()
        invariant
            i <= node.labels.len(),
            keys == label_views(node.labels@).map_values(|p: (Seq<char>, Seq<char>)| p.0),
            keys.len() == node.labels.len(),
            string_views(sorted@) == sorted_keys(keys.take(i as int)),
        decreases node.labels.len() - i,
    {
        assert(keys.take(i + 1).drop_last() =~= keys.take(i as int));
        assert(keys.take(i + 1).last() == node.labels@[i as int].0@);
        insert_key(&mut sorted, &node.labels[i].0);
        i += 1;
    }
    assert(keys.take(node.labels.len() as int) =~= keys);
    push_str(&mut s, "Allowed labels: [");
    push_joined(&mut s, sorted.as_slice(), ", ");
    push_str(&mut s, "]\n");
    let ghost cv = string_views(closes@);
    let start: usize = if closes.len() > 20 { closes.len() - 20 } else { 0 };
    let mut recent: Vec<String> = Vec::new();
    let mut k: usize = start;
    while k < closes.len()
        invariant
            start <= k <= closes.len(),
            cv == string_views(closes@),
            string_views(recent@) == cv.subrange(start as int, k as int),
        decreases closes.len() - k,
    {
        let c = String::from_str(closes[k].as_str());
        assert(cv[k as int] == closes@[k as int]@);
        let ghost before = string_views(recent@);
        recent.push(c);
        assert(string_views(recent@) =~= before.push(cv[k as int]));
        k += 1;
        assert(string_views(recent@) =~= cv.subrange(start as int, k as int));
    }
    assert(cv.subrange(start as int, closes.len() as int) =~= last_n(cv, 20));
    push_str(&mut s, "Recent primary closes: [");
    push_joined(&mut s, recent.as_slice(), ", ");
    push_str(&mut s, "]\n");
    let ghost before_latest = s@;
    if closes.len() > 0 {
        push_str(&mut s, "Latest close: ");
        push_str(&mut s, closes[closes.len() - 1].as_str());
        push_str(&mut s, "\n");
    }
    let ghost iv = string_views(node.inputs@);
    let ghost hv = string_views(headlines@);
    let ghost ns = opt_view(news_score);
    let ghost head = s@;
    let mut m: usize = 0;
    assert(iv.take(0) =~= Seq::<Seq<char>>::empty());
    assert(head + input_lines(iv.take(0), ns, hv) =~= head);
    while m < node.inputs.len()
        invariant
            m <= node.inputs.len(),
            iv == string_views(node.inputs@),
            hv == string_views(headlines@),
            ns == opt_view(news_score),
            s@ == head + input_lines(iv.take(m as int), ns, hv),
        decreases node.inputs.len() - m,
    {
        let input = &node.inputs[m];
        assert(iv.take(m + 1).drop_last() =~= iv.take(m as int));
        assert(iv.take(m + 1).last() == input@);
        let ic = chars_of(input.as_str());
        if chars_eq_str(ic.as_slice(), "news_score") {
            push_str(&mut s, "news_score: ");
            match &news_score {
                Some(v) => push_str(&mut s, v.as_str()),
                None => push_str(&mut s, "none"),
            }
            push_str(&mut s, "\n");
        } else if chars_eq_str(ic.as_slice(), "recent_headlines") {
            push_str(&mut s, "recent_headlines: ");
            if headlines.len() > 0 {
                push_joined(&mut s, headlines, "; ");
            } else {
                push_str(&mut s, "none");
            }
            push_str(&mut s, "\n");
        } else {
            push_str(&mut s, input.as_str());
            push_str(&mut s, ": unavailable\n");
        }
        m += 1;
    }
    assert(iv.take(node.inputs.len() as int) =~= iv);
    s
}

/// Strictly ascending.
pub open spec fn strictly_ascending(s: Seq<Seq<char>>) -> bool {
    forall|i: int, j: int| 0 <= i < j < s.len() ==> lex_lt(#[trigger] s[i], #[trigger] s[j])
}

proof fn lemma_insert_pos(s: Seq<Seq<char>>, x: Seq<char>, i: int)
    requires
        0 <= i <= s.len(),
    ensures
        i <= insert_pos_from(s, x, i) <= s.len(),
        forall|k: int| i <= k < insert_pos_from(s, x, i) ==> lex_lt(#[trigger] s[k], x),
        insert_pos_from(s, x, i) < s.len() ==> !lex_lt(s[insert_pos_from(s, x, i)], x),
    decreases s.len() - i,
{
    if i < s.len() && lex_lt(s[i], x) {
        lemma_insert_pos(s, x, i + 1);
    }
}

proof fn lemma_insert_sorted(s: Seq<Seq<char>>, x: Seq<char>)
    requires
        strictly_ascending(s),
    ensures
        strictly_ascending(insert_sorted(s, x)),
        insert_sorted(s, x).to_set() == s.to_set().insert(x),
{
    let j = insert_pos_from(s, x, 0);
    lemma_insert_pos(s, x, 0);
    let r = insert_sorted(s, x);
    if j < s.len() && s[j] == x {
        assert(s.to_set().insert(x) =~= s.to_set());
    } else {
        if j < s.len() {
            crate::text::lemma_lex_total(s[j], x);
        }
        assert forall|k: int| j <= k < s.len() implies lex_lt(x, #[trigger] s[k]) by {
            if k > j {
                crate::text::lemma_lex_transitive(x, s[j], s[k]);
            }
        }
        assert forall|a: int, b: int| 0 <= a < b < r.len() implies lex_lt(#[trigger] r[a], #[trigger] r[b]) by {
            if a < j && b < j {
            } else if a < j && b == j {
            } else if a < j && b > j {
                assert(r[b] == s[b - 1]);
                crate::text::lemma_lex_transitive(s[a], x, s[b - 1]);
            } else if a == j {
                assert(r[b] == s[b - 1]);
            } else {
                assert(r[a] == s[a - 1] && r[b] == s[b - 1]);
            }
        }
        assert forall|y: Seq<char>| r.to_set().contains(y) <==> s.to_set().insert(x).contains(y) by {
            if r.contains(y) {
                let k = choose|k: int| 0 <= k < r.len() && r[k] == y;
                if k < j {
                    assert(s[k] == y);
                } else if k > j {
                    assert(s[k - 1] == y);
                }
            }
            if s.contains(y) {
                let k = choose|k: int| 0 <= k < s.len() && s[k] == y;
                if k < j {
                    assert(r[k] == y);
                } else {
                    assert(r[k + 1] == y);
                }
            }
            if y == x {
                assert(r[j] == x);
            }
        }
        assert(r.to_set() =~= s.to_set().insert(x));
    }
}

proof fn lemma_sorted_keys(ks: Seq<Seq<char>>)
    ensures
        strictly_ascending(sorted_keys(ks)),
        sorted_keys(ks).to_set() == ks.to_set(),
    decreases ks.len(),
{
    if ks.len() == 0 {
        assert(sorted_keys(ks).to_set() =~= ks.to_set());
    } else {
        lemma_sorted_keys(ks.drop_last());
        lemma_insert_sorted(sorted_keys(ks.drop_last()), ks.last());
        assert(ks.to_set() =~= ks.drop_last().to_set().insert(ks.last())) by {
            assert forall|y: Seq<char>| ks.contains(y) <==> ks.drop_last().contains(y) || y == ks.last() by {
                if ks.contains(y) {
                    let k = choose|k: int| 0 <= k < ks.len() && ks[k] == y;
                    if k < ks.len() - 1 {
                        assert(ks.drop_last()[k] == y);
                    }
                }
                if ks.drop_last().contains(y) {
                    let k = choose|k: int| 0 <= k < ks.drop_last().len() && ks.drop_last()[k] == y;
                    assert(ks[k] == y);
                }
                if y == ks.last() {
                    assert(ks[ks.len() - 1] == y);
                }
            }
        }
    }
}

proof fn lemma_ascending_unique(s: Seq<Seq<char>>, t: Seq<Seq<char>>)
    requires
        strictly_ascending(s),
        strictly_ascending(t),
        s.to_set() == t.to_set(),
    ensures
        s == t,
    decreases s.len(),
{
    if s.len() == 0 {
        if t.len() > 0 {
            assert(t.to_set().contains(t[0]));
        }
        assert(s =~= t);
    } else {
        assert(s.to_set().contains(s[0]));
        assert(t.len() > 0);
        assert(t.to_set().contains(t[0]));
        let k = choose|k: int| 0 <= k < t.len() && t[k] == s[0];
        let m = choose|m: int| 0 <= m < s.len() && s[m] == t[0];
        if k > 0 {
            assert(lex_lt(t[0], t[k]));
            if m > 0 {
                assert(lex_lt(s[0], s[m]));
                crate::text::lemma_lex_transitive(s[0], t[0], s[0]);
            }
            crate::text::lemma_lex_irreflexive(s[0]);
        }
        assert(s[0] == t[0]);
        let s1 = s.drop_first();
        let t1 = t.drop_first();
        assert forall|y: Seq<char>| s1.to_set().contains(y) <==> t1.to_set().contains(y) by {
            if s1.contains(y) {
                let a = choose|a: int| 0 <= a < s1.len() && s1[a] == y;
                assert(s[a + 1] == y);
                assert(lex_lt(s[0], y));
                assert(s.to_set().contains(y));
                assert(t.to_set().contains(y));
                assert(t.contains(y));
                let b = choose|b: int| 0 <= b < t.len() && t[b] == y;
                if b == 0 {
                    crate::text::lemma_lex_irreflexive(y);
                }
                assert(t1[b - 1] == y);
            }
            if t1.contains(y) {
                let a = choose|a: int| 0 <= a < t1.len() && t1[a] == y;
                assert(t[a + 1] == y);
                assert(lex_lt(t[0], y));
                assert(t.to_set().contains(y));
                assert(s.to_set().contains(y));
                assert(s.contains(y));
                let b = choose|b: int| 0 <= b < s.len() && s[b] == y;
                if b == 0 {
                    crate::text::lemma_lex_irreflexive(y);
                }
                assert(s1[b - 1] == y);
            }
        }
        assert(s1.to_set() =~= t1.to_set());
        lemma_ascending_unique(s1, t1);
        assert(s =~= seq![s[0]] + s1);
        assert(t =~= seq![t[0]] + t1);
    }
}

/// Law: the user message of an LLM node depends only on its question, the
/// set of its label names (not their order, not where they lead, not the
/// node's default) and its inputs, besides the market context; two nodes
/// sharing one judge therefore render alike and share their cache key.
pub proof fn law_render_ignores_gotos(
    prompt: Seq<char>,
    keys_a: Seq<Seq<char>>,
    keys_b: Seq<Seq<char>>,
    closes: Seq<Seq<char>>,
    inputs: Seq<Seq<char>>,
    news_score: Option<Seq<char>>,
    headlines: Seq<Seq<char>>,
)
    requires
        keys_a.to_set() == keys_b.to_set(),
    ensures
        render_spec(prompt, keys_a, closes, inputs, news_score, headlines)
            == render_spec(prompt, keys_b, closes, inputs, news_score, headlines),
{
    lemma_sorted_keys(keys_a);
    lemma_sorted_keys(keys_b);
    lemma_ascending_unique(sorted_keys(keys_a), sorted_keys(keys_b));
}

} // verus!
