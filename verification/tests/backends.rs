//! What each backend sends and reads.
use serde_json::Value;
use system_one::answer::{RawAnswer, Score};
use system_one::backend::answers;
use system_one::backend::http::{Action, Event, JevHttp, DEFAULT_ENDPOINT, DEFAULT_MODEL};
use system_one::backend::logprob::{build_answer, label_logprobs, normalise_token, LocalLogprob, PromptStyle};
use system_one::backend::mock::{Even, Mock};
use system_one::binary64::Binary64;
use system_one::error::Error;
use system_one::schema::{NoulCriteria, QuestionSchema, QuestionSpec};
use system_one::sorted_map::SortedMap;

fn bits(x: f64) -> Binary64 {
    Binary64 { bits: x.to_bits() }
}

fn text(s: &str) -> Value {
    Value::String(s.to_string())
}

fn words(ws: &[&str]) -> Vec<String> {
    ws.iter().map(|s| s.to_string()).collect()
}

fn object(entries: Vec<(&str, Value)>) -> Value {
    Value::Object(entries.into_iter().map(|(k, v)| (k.to_string(), v)).collect())
}

fn noul() -> QuestionSpec {
    QuestionSpec::Noul { instructions: "Refund?".to_string(), criteria: None }
}

#[test]
fn http_defaults_and_environment() {
    let b = JevHttp::new("k");
    assert_eq!(b.endpoint, DEFAULT_ENDPOINT);
    assert_eq!(b.model, DEFAULT_MODEL);
    assert_eq!(b.max_retries, 4);
    assert_eq!(b.id(), "jev-http:jev-latest");
    assert!(JevHttp::from_env(None, Some("e".to_string()), None).is_none());
    let b = JevHttp::from_env(Some("k".to_string()), Some("e".to_string()), Some("m".to_string())).unwrap();
    assert_eq!((b.endpoint.as_str(), b.model.as_str(), b.api_key.as_str()), ("e", "m", "k"));
    let b = JevHttp::from_env(Some("k".to_string()), None, None).unwrap();
    assert_eq!(b.endpoint, "https://api.typesafe.ai/v1/systemone");
    let b = b.with_endpoint("x").with_model("y").with_max_retries(1);
    assert_eq!((b.endpoint.as_str(), b.model.as_str(), b.max_retries), ("x", "y", 1));
    assert_eq!(b.api_key, "k");
}

#[test]
fn http_body_holds_model_state_and_questions() {
    let b = JevHttp::new("k").with_model("m");
    let schema = QuestionSchema::new().with("q", noul());
    let body = b.request(&text("s"), &schema).unwrap();
    assert_eq!(body["model"], "m");
    assert_eq!(body["state"], "s");
    assert_eq!(body["questions"], schema.to_api_json());
    assert_eq!(body.as_object().unwrap().len(), 3);
    assert!(matches!(b.request(&text("s"), &QuestionSchema::new()), Err(Error::InvalidSchema(_))));
}

#[test]
fn http_retries_overload_and_transport_errors() {
    let b = JevHttp::new("k").with_max_retries(2);
    assert_eq!(b.decide(1, Event::Status(200)), Action::ReadAnswers);
    assert_eq!(b.decide(1, Event::Status(429)), Action::Retry { wait_ms: 250 });
    assert_eq!(b.decide(2, Event::Status(529)), Action::Retry { wait_ms: 500 });
    assert_eq!(
        b.decide(3, Event::Status(429)),
        Action::Fail(Error::RateLimited { backend: "jev-http:jev-latest".to_string(), attempts: 3 })
    );
    assert_eq!(b.decide(1, Event::Status(500)), Action::ReadFailure);
    assert_eq!(b.decide(1, Event::Status(302)), Action::ReadFailure);
    let lost = || Event::Transport { message: "lost".to_string() };
    assert_eq!(b.decide(1, lost()), Action::Retry { wait_ms: 250 });
    assert_eq!(b.decide(2, lost()), Action::Retry { wait_ms: 500 });
    let failed = || Action::Fail(Error::Backend { backend: "jev-http:jev-latest".to_string(), message: "lost".to_string() });
    assert_eq!(b.decide(3, lost()), failed());
    assert_eq!(JevHttp::new("k").with_max_retries(0).decide(1, lost()), failed());
    let many = JevHttp::new("k").with_max_retries(32);
    assert_eq!(many.decide(32, Event::Status(429)), Action::Retry { wait_ms: 250 << 31 });
    assert_eq!(many.decide(40, Event::Status(200)), Action::ReadAnswers);
    assert!(Event::Status(529).may_pass() && lost().may_pass());
    assert!(!Event::Status(500).may_pass() && !Event::Status(200).may_pass());
    assert_eq!(b.invalid_body("eof").message(), "backend `jev-http:jev-latest` failed: invalid response body: eof");
    assert_eq!(b.failure("500 Internal Server Error", "oops").message(), "backend `jev-http:jev-latest` failed: HTTP 500 Internal Server Error: oops");
    let limited = Error::RateLimited { backend: "b".to_string(), attempts: 5 };
    assert_eq!(limited.message(), "backend `b` is rate limited / overloaded after 5 attempts");
    let missing = Error::NotRecorded { state_hash: "s".to_string(), schema_hash: "q".to_string() };
    assert_eq!(missing.message(), "no recorded answer for state hash s / schema hash q");
    assert_eq!(Error::State("bad key".to_string()).message(), "state serialisation failed: bad key");
    assert_eq!(Error::Io("no such file".to_string()).message(), "io: no such file");
}

#[test]
fn prompts_are_labelled() {
    let b = LocalLogprob::new("http://localhost:8000/v1//", "m");
    assert_eq!(b.base_url, "http://localhost:8000/v1");
    assert_eq!(b.id(), "local-logprob:m");
    let spec = QuestionSpec::Noul {
        instructions: "Refund?".to_string(),
        criteria: Some(NoulCriteria { yes: "asks for money".to_string(), no: String::new() }),
    };
    let (prompt, keys) = b.render(&text("state"), "refund", &spec).unwrap();
    assert_eq!(
        prompt,
        "State:\nstate\n\nQuestion (refund): Refund?\nOptions:\nA) yes — asks for money\nB) no\n\nAnswer with the option letter only.\nAnswer:"
    );
    assert_eq!(keys, ["yes", "no"]);
    let score = QuestionSpec::Score { instructions: "How?".to_string(), criteria: words(&["low", "high"]) };
    let (prompt, keys) = b.render(&object(vec![("a", Value::from(1u64))]), "u", &score).unwrap();
    assert!(prompt.starts_with("State:\n{\n  \"a\": 1\n}\n\nQuestion (u): How? (ordered scale, lowest first)\nOptions:\nA) 0 — low\nB) 1 — high\n"));
    assert_eq!(keys, ["0", "1"]);
    let choice = |n: usize| QuestionSpec::Choice {
        instructions: "?".to_string(),
        criteria: (0..n).map(|i| (i.to_string(), None)).collect(),
    };
    let (prompt, keys) = b.render(&text("s"), "c", &choice(26)).unwrap();
    assert!(prompt.contains("\nZ) 25\n"));
    assert_eq!(keys.len(), 26);
    assert_eq!(
        b.render(&text("s"), "c", &choice(27)).unwrap_err().message(),
        "invalid schema: question `c` has 27 options; LocalLogprob supports at most 26"
    );
}

#[test]
fn requests_follow_the_style() {
    let b = LocalLogprob::new("u", "m").with_top_logprobs(5).with_system_prompt("sys").with_api_key("k");
    assert_eq!(b.api_key.as_deref(), Some("k"));
    let (url, body) = b.request("p");
    assert_eq!(url, "u/chat/completions");
    assert_eq!(body["messages"][0]["role"], "system");
    assert_eq!(body["messages"][0]["content"], "sys");
    assert_eq!(body["messages"][1]["content"], "p");
    assert_eq!(body["max_tokens"], 1);
    assert_eq!(body["temperature"], 0);
    assert_eq!(body["logprobs"], true);
    assert_eq!(body["top_logprobs"], 5);
    let (url, body) = b.with_style(PromptStyle::Completion).request("p");
    assert_eq!(url, "u/completions");
    assert_eq!(body["prompt"], "sys\n\np");
    assert_eq!(body["logprobs"], 5);
    assert!(body.get("messages").is_none());
}

#[test]
fn tokens_are_normalised() {
    assert_eq!(normalise_token(" a"), "A");
    assert_eq!(normalise_token("(b)"), "(B");
    assert_eq!(normalise_token("C).:"), "C");
    assert_eq!(normalise_token(".: d"), " D");
    assert_eq!(normalise_token(")"), "");
}

#[test]
fn logprobs_are_read_from_both_shapes() {
    let b = LocalLogprob::new("u", "m");
    let item = |t: &str, p: f64| object(vec![("token", text(t)), ("logprob", Value::from(p))]);
    let top = Value::Array(vec![item("A", -0.5), item(" b", -1.5), object(vec![("token", text("C"))]), item("a.", -2.5)]);
    let content = Value::Array(vec![object(vec![("top_logprobs", top)])]);
    let choice = object(vec![("logprobs", object(vec![("content", content)]))]);
    let v = object(vec![("choices", Value::Array(vec![choice]))]);
    let lps = b.first_token_logprobs(&v).unwrap();
    assert_eq!(lps.len(), 2);
    assert_eq!(lps.get(&"A".to_string()), Some(&bits(-2.5)), "the later entry stays");
    assert_eq!(label_logprobs(&lps, 3), vec![Some(bits(-2.5)), Some(bits(-1.5)), None]);
    let err = b.first_token_logprobs(&Value::Null).unwrap_err();
    assert_eq!(err.message(), "backend `local-logprob:m` failed: server returned no logprobs; enable logprobs on the server");

    let legacy = b.with_style(PromptStyle::Completion);
    let map = object(vec![("A", Value::from(-1i64)), (" A", Value::from(-3.5)), ("B", text("no number"))]);
    let choice = object(vec![("logprobs", object(vec![("top_logprobs", Value::Array(vec![map]))]))]);
    let v = object(vec![("choices", Value::Array(vec![choice]))]);
    let lps = legacy.first_token_logprobs(&v).unwrap();
    assert_eq!(lps.len(), 1);
    assert_eq!(lps.get(&"A".to_string()), Some(&bits(-1.0)), "tokens are read in order");
    assert_eq!(legacy.failed("gone").message(), "backend `local-logprob:m` failed: gone");
    assert_eq!(legacy.refused("404 Not Found", "t").message(), "backend `local-logprob:m` failed: HTTP 404 Not Found: t");
}

#[test]
fn probabilities_become_answers() {
    let a = build_answer(&noul(), &words(&["yes", "no"]), &vec![bits(0.25), bits(0.75)], bits(0.75));
    assert_eq!(a, RawAnswer::Noul { noul: bits(0.25), confidence: Some(bits(0.75)) });
    let spec = QuestionSpec::Choice { instructions: "?".to_string(), criteria: vec![("x".to_string(), None), ("y".to_string(), None)] };
    match build_answer(&spec, &words(&["x", "y"]), &vec![bits(0.5), bits(0.5)], bits(0.5)) {
        RawAnswer::Choice { choice, probabilities, confidence } => {
            assert_eq!(choice, "y", "the last of the greatest");
            assert_eq!(confidence, bits(0.5));
            assert_eq!(probabilities.get(&"x".to_string()), Some(&bits(0.5)));
        }
        _ => panic!("a choice"),
    }
    let spec = QuestionSpec::Score { instructions: "?".to_string(), criteria: words(&["lo", "hi"]) };
    match build_answer(&spec, &words(&["0", "1"]), &vec![bits(0.25), bits(0.75)], bits(0.75)) {
        RawAnswer::Score { score, legend, probabilities, confidence } => {
            assert_eq!((score, confidence), (bits(0.75), bits(0.75)));
            assert_eq!(legend.get(&"1".to_string()).unwrap(), "hi");
            assert_eq!(probabilities.get(&"0".to_string()), Some(&bits(0.25)));
        }
        _ => panic!("a score"),
    }
    let b = LocalLogprob::new("u", "m");
    let all = b.assemble(vec![("q".to_string(), answers::noul(bits(0.5)))]);
    assert_eq!(all.model, "m");
    assert_eq!(all.get("q").unwrap(), &answers::noul(bits(0.5)));
}

#[test]
fn uniform_answers_share_evenly() {
    let even = Even { share: bits(0.5), middle: bits(0.5) };
    assert_eq!(Mock::uniform_answer(&noul(), even), answers::noul(bits(0.5)));
    let spec = QuestionSpec::Choice { instructions: "?".to_string(), criteria: vec![("x".to_string(), None), ("y".to_string(), None)] };
    match Mock::uniform_answer(&spec, even) {
        RawAnswer::Choice { choice, probabilities, confidence } => {
            assert_eq!(choice, "x");
            assert_eq!(probabilities.len(), 2);
            assert_eq!(probabilities.get(&"y".to_string()), Some(&confidence));
        }
        _ => panic!("a choice"),
    }
    let spec = QuestionSpec::Score { instructions: "?".to_string(), criteria: words(&["lo", "hi"]) };
    match Mock::uniform_answer(&spec, even) {
        RawAnswer::Score { score, legend, probabilities, .. } => {
            assert_eq!(score, bits(0.5));
            assert_eq!(legend.get(&"0".to_string()).unwrap(), "lo");
            assert_eq!(probabilities.get(&"1".to_string()), Some(&bits(0.5)));
        }
        _ => panic!("a score"),
    }
    let m = Mock::uniform();
    assert_eq!(m.id, "mock:uniform");
    assert!(m.decide(&QuestionSchema::new(), vec![], &vec![]).is_err());
    let schema = QuestionSchema::new().with("a", noul()).with("b", noul());
    let all = m.decide(&schema, vec![None, Some(answers::noul(bits(0.25)))], &vec![even, even]).unwrap();
    assert_eq!(all.model, "mock:uniform");
    assert_eq!(all.get("a").unwrap(), &answers::noul(bits(0.5)));
    assert_eq!(all.get("b").unwrap(), &answers::noul(bits(0.25)));
}

#[test]
fn helpers_choose_the_greatest() {
    let mut m = SortedMap::new();
    for (k, p) in [("a", 0.4), ("b", 0.4), ("c", 0.2)] {
        m.insert(k.to_string(), bits(p));
    }
    match answers::choice(m) {
        RawAnswer::Choice { choice, confidence, .. } => assert_eq!((choice.as_str(), confidence), ("b", bits(0.4))),
        _ => panic!("a choice"),
    }
    match answers::choice(SortedMap::new()) {
        RawAnswer::Choice { choice, confidence, .. } => assert_eq!((choice.as_str(), confidence), ("", bits(0.0))),
        _ => panic!("a choice"),
    }
    match answers::score(&vec![bits(0.25), bits(0.75)], bits(0.75), &words(&["lo", "hi"])) {
        RawAnswer::Score { confidence, score, .. } => assert_eq!((confidence, score), (bits(0.75), bits(0.75))),
        _ => panic!("a score"),
    }
}

#[test]
fn overload_ends_after_the_retries() {
    let b = JevHttp::new("k").with_max_retries(3);
    let mut waits = Vec::new();
    let mut attempt = 0;
    let end = loop {
        attempt += 1;
        match b.decide(attempt, Event::Status(529)) {
            Action::Retry { wait_ms } => waits.push(wait_ms),
            end => break end,
        }
    };
    assert_eq!(attempt, 4);
    assert_eq!(waits, [250, 500, 1000]);
    assert_eq!(end, Action::Fail(Error::RateLimited { backend: "jev-http:jev-latest".to_string(), attempts: 4 }));
}

#[test]
fn score_answers_decode_to_what_they_were_made_of() {
    let probs: Vec<Binary64> = (0..10).map(|i| bits(i as f64 / 45.0)).collect();
    let labels: Vec<String> = (0..10).map(|i| format!("level {i}")).collect();
    let sent = words(&["a", "b", "c", "d", "e", "f", "g", "h", "i", "j"]);
    let answer = answers::score(&probs, bits(6.0), &labels);
    let decoded = Score::from_raw("s", &answer, &sent).unwrap();
    assert_eq!(decoded.probabilities, probs);
    assert_eq!(decoded.legend, labels);
    assert_eq!(decoded.argmax(), 9);
    let spec = QuestionSpec::Score { instructions: "?".to_string(), criteria: sent.clone() };
    let keys: Vec<String> = (0..10).map(|i| i.to_string()).collect();
    let decoded = Score::from_raw("s", &build_answer(&spec, &keys, &probs, bits(6.0)), &labels).unwrap();
    assert_eq!(decoded.probabilities, probs);
    assert_eq!(decoded.legend, sent);
    assert_eq!(decoded.confidence, probs[9]);
}
