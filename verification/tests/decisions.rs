//! Typed answers, schemas, engine, recording, replay, shadow and calibration.
use serde_json::Value;
use system_one::answer::{Choice, Noul, RawAnswer, RawAnswers, Score, Usage};
use system_one::backend::answers;
use system_one::backend::logprob::build_answer;
use system_one::backend::mock::{Even, Mock};
use system_one::backend::replay::{Lookup, Replay};
use system_one::backend::shadow::Shadow;
use system_one::binary64::Binary64;
use system_one::calibration::{clamp_pairs, Bin, BinText, CalibrationReport, Headline, Tally};
use system_one::derive::{expand_choice, expand_questions, Arg, ArgValue, Attribute, Field, FieldType, Generics, Input, Meta, QuestionKind, Variant};
use system_one::engine::{Begun, Engine};
use system_one::error::Error;
use system_one::hash::hash_json;
use system_one::record::{attach_outcomes, export_columns, holds_record, stamp, Record, Timestamp};
use system_one::schema::{NoulCriteria, QuestionSchema, QuestionSpec};
use system_one::sorted_map::SortedMap;
use system_one::traits::{AsChoice, AsQuestions};

fn bits(x: f64) -> Binary64 {
    Binary64 { bits: x.to_bits() }
}

fn num(b: Binary64) -> f64 {
    f64::from_bits(b.bits)
}

fn text(s: &str) -> Value {
    Value::String(s.to_string())
}

fn attr(name: &str, args: Vec<Arg>) -> Attribute {
    Attribute { name: name.to_string(), meta: Meta::List(args) }
}

fn doc(line: &str) -> Attribute {
    Attribute { name: "doc".to_string(), meta: Meta::Value(ArgValue::Text(line.to_string())) }
}

fn named(name: &str, value: &str) -> Arg {
    Arg::Named(name.to_string(), ArgValue::Text(value.to_string()))
}

#[derive(Clone, Copy, PartialEq, Eq, Debug)]
enum Dept {
    Billing,
    Technical,
    Sales,
}

impl AsChoice for Dept {
    fn all() -> &'static [Self] {
        &[Dept::Billing, Dept::Technical, Dept::Sales]
    }

    fn key(&self) -> &'static str {
        match self {
            Dept::Billing => "billing",
            Dept::Technical => "tech",
            Dept::Sales => "sales",
        }
    }

    fn description(&self) -> Option<&'static str> {
        match self {
            Dept::Billing => Some("Money things."),
            Dept::Technical => Some("Bugs and APIs"),
            Dept::Sales => None,
        }
    }

    fn from_key(key: &str) -> Option<Self> {
        match key {
            "billing" => Some(Dept::Billing),
            "tech" => Some(Dept::Technical),
            "sales" => Some(Dept::Sales),
            _ => None,
        }
    }
}

/// The enum above as the macro reads it.
fn dept_input() -> Input {
    Input::Enum(vec![
        Variant { ident: "Billing".to_string(), unit: true, attrs: vec![doc(" Money things.")] },
        Variant {
            ident: "Technical".to_string(),
            unit: true,
            attrs: vec![attr("jev", vec![named("key", "tech"), named("desc", "Bugs and APIs")])],
        },
        Variant { ident: "Sales".to_string(), unit: true, attrs: vec![] },
    ])
}

#[derive(Debug)]
struct Triage {
    dept: Choice<Dept>,
    refund: Noul,
    urgency: Score,
    is_spam: Noul,
}

fn plain(name: &str) -> FieldType {
    FieldType::Path { last: name.to_string(), generics: Generics::Absent }
}

/// The struct above as the macro reads it.
fn triage_input() -> Input {
    let levels = ["low", "mid", "high"].iter().map(|l| ArgValue::Text(l.to_string())).collect();
    Input::Named(vec![
        Field {
            ident: "dept".to_string(),
            ty: FieldType::Path { last: "Choice".to_string(), generics: Generics::Type },
            attrs: vec![attr("jev", vec![Arg::Positional("Which department?".to_string())])],
        },
        Field {
            ident: "refund".to_string(),
            ty: plain("Noul"),
            attrs: vec![attr(
                "jev",
                vec![
                    Arg::Positional("Wants a refund?".to_string()),
                    named("yes", "asks for money back"),
                    named("no", "anything else"),
                ],
            )],
        },
        Field {
            ident: "urgency".to_string(),
            ty: plain("Score"),
            attrs: vec![attr(
                "jev",
                vec![Arg::Positional("Urgency".to_string()), Arg::Named("levels".to_string(), ArgValue::List(levels))],
            )],
        },
        Field {
            ident: "is_spam".to_string(),
            ty: plain("Noul"),
            attrs: vec![doc(" Doc comments work as instructions too."), attr("jev", vec![named("name", "is_spam_wire")])],
        },
    ])
}

impl AsQuestions for Triage {
    fn schema() -> QuestionSchema {
        let mut schema = QuestionSchema::new();
        for q in expand_questions(&triage_input()).unwrap() {
            let spec = match q.kind {
                QuestionKind::Noul(criteria) => QuestionSpec::Noul {
                    instructions: q.instructions,
                    criteria: criteria.map(|(yes, no)| NoulCriteria { yes, no }),
                },
                QuestionKind::Choice => QuestionSpec::Choice { instructions: q.instructions, criteria: Dept::criteria() },
                QuestionKind::Score(levels) => QuestionSpec::Score { instructions: q.instructions, criteria: levels },
            };
            schema.insert(&q.wire, spec);
        }
        schema
    }

    fn from_raw(raw: &RawAnswers) -> Result<Self, Error> {
        let levels = vec!["low".to_string(), "mid".to_string(), "high".to_string()];
        Ok(Triage {
            dept: Choice::from_raw("dept", raw.get("dept")?)?,
            refund: Noul::from_raw("refund", raw.get("refund")?)?,
            urgency: Score::from_raw("urgency", raw.get("urgency")?, &levels)?,
            is_spam: Noul::from_raw("is_spam_wire", raw.get("is_spam_wire")?)?,
        })
    }
}

/// Ask a mock whose rule is `rule`.
fn mock_answers(
    mock: &Mock,
    state: &Value,
    schema: &QuestionSchema,
    rule: &dyn Fn(&Value, &str) -> Option<RawAnswer>,
) -> Result<RawAnswers, Error> {
    let mut given = Vec::new();
    let mut even = Vec::new();
    for i in 0..schema.questions.len() {
        given.push(rule(state, schema.questions.key_at(i)));
        let n = match schema.questions.value_at(i) {
            QuestionSpec::Noul { .. } => 2,
            QuestionSpec::Choice { criteria, .. } => criteria.len(),
            QuestionSpec::Score { criteria, .. } => criteria.len(),
        };
        even.push(Even { share: bits(1.0 / n as f64), middle: bits((n as f64 - 1.0) / 2.0) });
    }
    mock.decide(schema, given, &even)
}

fn probabilities(pairs: &[(&str, f64)]) -> SortedMap<String, Binary64> {
    let mut m = SortedMap::new();
    for (k, p) in pairs {
        m.insert(k.to_string(), bits(*p));
    }
    m
}

/// Ask an engine in front of a backend, as an application does.
fn ask_raw(
    engine: &mut Engine,
    backend: &str,
    state: &Value,
    schema: &QuestionSchema,
    decide: &dyn Fn(&Value, &QuestionSchema) -> Result<RawAnswers, Error>,
    log: &mut Vec<Record>,
) -> Result<RawAnswers, Error> {
    match engine.begin(state, schema) {
        Begun::Cached(a) => Ok(a),
        Begun::Ask { key } => {
            let said = decide(state, schema);
            let (raw, record) = engine.finish(key, backend, state, schema, said, Timestamp::now())?;
            if let Some(r) = record {
                log.push(r);
            }
            Ok(raw)
        }
        Begun::Wait => panic!("one question is asked at a time"),
    }
}

#[test]
fn choice_derive_exposes_keys_and_descriptions() {
    assert_eq!(Dept::all(), &[Dept::Billing, Dept::Technical, Dept::Sales]);
    assert_eq!(Dept::Technical.key(), "tech");
    assert_eq!(Dept::Billing.key(), "billing");
    assert_eq!(Dept::Billing.description(), Some("Money things."));
    assert_eq!(Dept::Technical.description(), Some("Bugs and APIs"));
    assert_eq!(Dept::Sales.description(), None);
    assert_eq!(Dept::from_key("tech"), Some(Dept::Technical));
    assert_eq!(Dept::from_key("nope"), None);

    let options = expand_choice(&dept_input()).unwrap();
    assert_eq!(options.len(), 3);
    for (v, o) in Dept::all().iter().zip(&options) {
        assert_eq!(v.key(), o.key);
        assert_eq!(v.description(), o.desc.as_deref());
    }
}

#[test]
fn schema_matches_api_wire_format() {
    let schema = Triage::schema();
    schema.validate().unwrap();
    let json = schema.to_api_json();

    assert_eq!(json["dept"]["type"], "choice");
    assert_eq!(json["dept"]["instructions"], "Which department?");
    assert_eq!(json["dept"]["criteria"]["billing"], "Money things.");
    assert_eq!(json["dept"]["criteria"]["tech"], "Bugs and APIs");
    assert!(json["dept"]["criteria"]["sales"].is_null());

    assert_eq!(json["refund"]["type"], "noul");
    assert_eq!(json["refund"]["criteria"]["true"], "asks for money back");
    assert_eq!(json["refund"]["criteria"]["false"], "anything else");

    assert_eq!(json["urgency"]["type"], "score");
    assert_eq!(json["urgency"]["criteria"], Value::from(vec!["low", "mid", "high"]));

    // `name = "..."` overrides the wire name; doc comment is the instruction.
    assert!(json.get("is_spam").is_none());
    assert_eq!(json["is_spam_wire"]["instructions"], "Doc comments work as instructions too.");
}

#[test]
fn api_response_example_decodes() {
    // Shapes copied from the official docs.
    let mut all = SortedMap::new();
    all.insert(
        "dept".to_string(),
        RawAnswer::Choice {
            choice: "tech".to_string(),
            probabilities: probabilities(&[("billing", 0.12), ("tech", 0.88), ("sales", 0.0)]),
            confidence: bits(0.81),
        },
    );
    all.insert("refund".to_string(), RawAnswer::Noul { noul: bits(0.95), confidence: None });
    let mut legend = SortedMap::new();
    legend.insert("0".to_string(), "low".to_string());
    legend.insert("1".to_string(), "mid".to_string());
    legend.insert("2".to_string(), "high".to_string());
    all.insert(
        "urgency".to_string(),
        RawAnswer::Score {
            score: bits(1.05),
            legend,
            probabilities: probabilities(&[("0", 0.0), ("1", 0.95), ("2", 0.05)]),
            confidence: bits(0.92),
        },
    );
    all.insert("is_spam_wire".to_string(), RawAnswer::Noul { noul: bits(0.01), confidence: None });
    let raw = RawAnswers {
        answers: all,
        model: "jev-1.13.0".to_string(),
        usage: Usage { input_tokens: 304, output_tokens: 18 },
    };
    let t = Triage::from_raw(&raw).unwrap();
    assert_eq!(t.dept.argmax(), Dept::Technical);
    assert!((num(t.dept.p(Dept::Billing)) - 0.12).abs() < 1e-9);
    assert_eq!(t.dept.probabilities.len(), 3);
    assert!((num(t.refund.p) - 0.95).abs() < 1e-9);
    assert!((num(t.urgency.value) - 1.05).abs() < 1e-9);
    assert_eq!(t.urgency.argmax_label(), "mid");
    let at_least_one: f64 = t.urgency.probabilities.iter().skip(1).map(|p| num(*p)).sum();
    assert!((at_least_one - 1.0).abs() < 1e-9);
    assert_eq!(t.urgency.legend, vec!["low", "mid", "high"]);
    assert_eq!(raw.usage.input_tokens, 304);
    assert!((num(t.is_spam.p) - 0.01).abs() < 1e-9);
}

#[test]
fn schema_mismatch_is_an_error_not_a_panic() {
    let mut all = SortedMap::new();
    all.insert("dept".to_string(), RawAnswer::Noul { noul: bits(0.5), confidence: None }); // wrong type
    let raw = RawAnswers { answers: all, ..Default::default() };
    let err = Triage::from_raw(&raw).unwrap_err();
    assert!(matches!(err, Error::SchemaMismatch { .. }), "{err:?}");
    assert_eq!(err.message(), "answer for question `dept` does not match schema: expected choice, got noul");
}

fn noul_decides(n: &Noul, fp: f64, fnn: f64) -> bool {
    Noul::decide(bits((1.0 - num(n.p)) * fp), bits(num(n.p) * fnn))
}

fn choice_decides(c: &Choice<Dept>, cost: &dyn Fn(Dept, Dept) -> f64) -> Dept {
    let expected = Dept::all()
        .iter()
        .map(|action| bits(c.probabilities.iter().map(|(truth, p)| num(*p) * cost(*truth, *action)).sum()))
        .collect();
    c.decide(&expected)
}

fn choice_samples(c: &Choice<Dept>, u: f64) -> Dept {
    let mut left = u;
    let mut all = Vec::new();
    for (_, p) in &c.probabilities {
        all.push(bits(left));
        left -= num(*p);
    }
    c.sample(&all)
}

#[test]
fn decision_helpers() {
    let n = Noul::new(bits(0.3));
    // Break-even = fp/(fp+fn). 1/(1+1)=0.5 -> 0.3 does not act.
    assert!(!noul_decides(&n, 1.0, 1.0));
    // 1/(1+9)=0.1 -> 0.3 acts.
    assert!(noul_decides(&n, 1.0, 9.0));

    let c = Choice::<Dept> {
        chosen: Dept::Billing,
        probabilities: vec![(Dept::Billing, bits(0.5)), (Dept::Technical, bits(0.4)), (Dept::Sales, bits(0.1))],
        confidence: bits(0.5),
    };
    // Misrouting to Sales is catastrophic, otherwise unit cost: pick argmax.
    let a = choice_decides(&c, &|t, a| {
        if t == a {
            0.0
        } else if a == Dept::Sales {
            100.0
        } else {
            1.0
        }
    });
    assert_eq!(a, Dept::Billing);
    // Now make wrongly routing away from Technical very expensive -> pick Technical.
    let a = choice_decides(&c, &|t, a| {
        if t == a {
            0.0
        } else if t == Dept::Technical {
            10.0
        } else {
            1.0
        }
    });
    assert_eq!(a, Dept::Technical);
    assert_eq!(c.ranked()[0].0, Dept::Billing);

    let mut counts = [0usize; 3];
    for i in 0..2000 {
        match choice_samples(&c, i as f64 / 2000.0) {
            Dept::Billing => counts[0] += 1,
            Dept::Technical => counts[1] += 1,
            Dept::Sales => counts[2] += 1,
        }
    }
    assert!(counts[0] > counts[1] && counts[1] > counts[2]);
}

#[test]
fn nouls_clamp_and_compare() {
    assert_eq!(Noul::new(bits(1.5)).p, bits(1.0));
    assert_eq!(Noul::new(bits(-0.5)).p, bits(0.0));
    assert!(f64::from_bits(Noul::new(bits(f64::NAN)).p.bits).is_nan());
    assert!(Noul::new(bits(0.5)).is_likely(bits(0.5)));
    assert!(!Noul::new(bits(0.5)).is_likely(bits(0.51)));
    assert!(!Noul::new(bits(0.5)).is_likely(bits(f64::NAN)));
    assert!(Noul::new(bits(0.5)).sample(bits(0.49)));
    assert!(!Noul::new(bits(0.5)).sample(bits(0.5)));
}

#[test]
fn choices_rank_stably_and_miss_with_zero() {
    let c = Choice::<Dept> {
        chosen: Dept::Sales,
        probabilities: vec![(Dept::Billing, bits(0.25)), (Dept::Technical, bits(0.5)), (Dept::Sales, bits(0.25))],
        confidence: bits(0.5),
    };
    let order: Vec<Dept> = c.ranked().iter().map(|e| e.0).collect();
    assert_eq!(order, [Dept::Technical, Dept::Billing, Dept::Sales]);
    assert_eq!(c.p(Dept::Technical), bits(0.5));
    let none = Choice::<Dept> { chosen: Dept::Sales, probabilities: vec![], confidence: bits(0.0) };
    assert_eq!(none.p(Dept::Technical), bits(0.0));
    assert_eq!(none.sample(&vec![]), Dept::Sales);
    // Nothing beats an infinite cost: the reported variant stays.
    assert_eq!(c.decide(&vec![bits(f64::INFINITY); 3]), Dept::Sales);
}

#[test]
fn unknown_option_and_bad_levels_are_mismatches() {
    let raw = RawAnswer::Choice { choice: "legal".to_string(), probabilities: probabilities(&[]), confidence: bits(1.0) };
    let err = Choice::<Dept>::from_raw("dept", &raw).unwrap_err();
    assert_eq!(err.message(), "answer for question `dept` does not match schema: unknown option `legal`");

    let levels = vec!["low".to_string(), "high".to_string()];
    let score = |pairs: &[(&str, f64)]| RawAnswer::Score {
        score: bits(0.5),
        legend: SortedMap::new(),
        probabilities: probabilities(pairs),
        confidence: bits(0.5),
    };
    let err = Score::from_raw("u", &score(&[("x", 1.0)]), &levels).unwrap_err();
    assert_eq!(err.message(), "answer for question `u` does not match schema: non-integer level key `x`");
    let err = Score::from_raw("u", &score(&[("2", 1.0)]), &levels).unwrap_err();
    assert_eq!(err.message(), "answer for question `u` does not match schema: level 2 out of range (schema has 2)");
    let s = Score::from_raw("u", &score(&[("1", 0.75), ("0", 0.25)]), &levels).unwrap();
    assert_eq!(s.probabilities, vec![bits(0.25), bits(0.75)]);
    assert_eq!(s.legend, levels);
    assert_eq!(s.argmax(), 1);
    assert_eq!(s.argmax_label(), "high");
    // A numeral with a plus sign names its level too.
    let s = Score::from_raw("u", &score(&[("+1", 0.5)]), &levels).unwrap();
    assert_eq!(s.probabilities, vec![bits(0.0), bits(0.5)]);
    assert!(matches!(Noul::from_raw("n", &raw).unwrap_err(), Error::SchemaMismatch { .. }));
    assert_eq!(RawAnswers::default().get("n").unwrap_err(), Error::MissingAnswer("n".to_string()));
}

#[test]
fn ties_go_to_the_last_level() {
    let s = Score {
        value: bits(1.0),
        probabilities: vec![bits(0.4), bits(0.4), bits(0.2)],
        legend: vec!["a".to_string(), "b".to_string()],
        confidence: bits(0.4),
    };
    assert_eq!(s.argmax(), 1);
    let empty = Score { value: bits(0.0), probabilities: vec![], legend: vec![], confidence: bits(0.0) };
    assert_eq!(empty.argmax(), 0);
    assert_eq!(empty.argmax_label(), "");
}

#[test]
fn engine_with_mock_rule_and_cache() {
    let calls = std::cell::Cell::new(0usize);
    let mock = Mock::with_rule();
    let decide = |state: &Value, schema: &QuestionSchema| {
        mock_answers(&mock, state, schema, &|state, name| {
            calls.set(calls.get() + 1);
            let s = state.as_str().unwrap_or("");
            match name {
                "dept" => Some(answers::choice(probabilities(&[("billing", 0.7), ("tech", 0.2), ("sales", 0.1)]))),
                "refund" => Some(answers::noul(bits(if s.contains("refund") { 0.9 } else { 0.1 }))),
                _ => None,
            }
        })
    };
    let mut engine = Engine::new().with_cache();
    let mut log = Vec::new();
    let schema = Triage::schema();
    let raw = ask_raw(&mut engine, &mock.id, &text("please refund me"), &schema, &decide, &mut log).unwrap();
    let t = Triage::from_raw(&raw).unwrap();
    assert_eq!(t.dept.argmax(), Dept::Billing);
    assert!(num(t.refund.p) > 0.8);
    // Uniform fallback for questions the rule did not answer.
    assert!((num(t.urgency.probabilities[0]) - 1.0 / 3.0).abs() < 1e-9);
    assert_eq!(raw.model, "mock:rule");

    let n_before = calls.get();
    let again = ask_raw(&mut engine, &mock.id, &text("please refund me"), &schema, &decide, &mut log).unwrap(); // cache hit
    assert_eq!(calls.get(), n_before);
    assert_eq!(again, raw);
    assert!(log.is_empty());
}

#[test]
fn derived_answers_decode_back() {
    let schema = Triage::schema();
    assert_eq!(schema.len(), 4);
    assert_eq!(schema.validate(), Ok(()));
    let uniform = || mock_answers(&Mock::uniform(), &text("x"), &schema, &|_, _| None).unwrap();
    let t = Triage::from_raw(&uniform()).unwrap();
    assert_eq!(t.dept.argmax(), Dept::Billing);
    assert_eq!(t.dept.probabilities.len(), 3);
    assert_eq!(num(t.refund.p), 0.5);
    assert_eq!(t.urgency.legend, ["low", "mid", "high"]);
    assert_eq!(num(t.is_spam.p), 0.5);
    // An answer that is not asked for makes no difference.
    let mut more = uniform();
    more.answers.insert("other".to_string(), answers::noul(bits(0.5)));
    assert!(Triage::from_raw(&more).is_ok());
    // Of several faults the one of the first field is told.
    let mut faulty = uniform();
    faulty.answers = SortedMap::new();
    faulty.answers.insert("refund".to_string(), answers::choice(probabilities(&[("billing", 1.0)])));
    assert_eq!(Triage::from_raw(&faulty).unwrap_err(), Error::MissingAnswer("dept".to_string()));
    faulty.answers.insert("dept".to_string(), answers::choice(probabilities(&[("tech", 1.0)])));
    assert_eq!(
        Triage::from_raw(&faulty).unwrap_err().message(),
        "answer for question `refund` does not match schema: expected noul, got choice"
    );
    // Keys lead back.
    for v in Dept::all() {
        assert_eq!(Dept::from_key(v.key()), Some(*v));
    }
    assert_eq!(Dept::from_key("technical"), None);
}

#[test]
fn without_cache_every_state_is_asked() {
    let mut engine = Engine::new();
    let schema = QuestionSchema::new();
    let key = match engine.begin(&text("x"), &schema) {
        Begun::Ask { key } => key,
        _ => panic!("nothing is kept"),
    };
    assert_eq!(key.0, hash_json(&text("x")));
    assert_eq!(key.1, schema.hash());
    let (_, record) = engine.finish(key, "b", &text("x"), &schema, Ok(RawAnswers::default()), Timestamp::now()).unwrap();
    assert!(record.is_none());
    assert!(matches!(engine.begin(&text("x"), &schema), Begun::Ask { .. }));
    let failed = engine.finish(
        (String::new(), String::new()),
        "b",
        &text("x"),
        &schema,
        Err(Error::MissingAnswer("q".to_string())),
        Timestamp::now(),
    );
    assert_eq!(failed.err(), Some(Error::MissingAnswer("q".to_string())));
    assert_eq!(engine.with_concurrency(0).concurrency(), 1);
    assert_eq!(Engine::new().concurrency(), 16);
}

#[test]
fn identical_states_in_flight_are_sent_once() {
    let mut engine = Engine::new().with_cache().with_concurrency(2);
    let schema = QuestionSchema::new();
    let ask = |b: Begun| match b {
        Begun::Ask { key } => key,
        _ => panic!("to be asked"),
    };
    let key = ask(engine.begin(&text("a"), &schema));
    assert!(matches!(engine.begin(&text("a"), &schema), Begun::Wait));
    // Another state does not wait.
    let other = ask(engine.begin(&text("b"), &schema));
    engine.give_up(&other);
    ask(engine.begin(&text("b"), &schema));
    assert!(matches!(engine.begin(&text("a"), &schema), Begun::Wait));
    let said = RawAnswers { model: "m".to_string(), ..Default::default() };
    engine.finish(key, "x", &text("a"), &schema, Ok(said), Timestamp::now()).unwrap();
    match engine.begin(&text("a"), &schema) {
        Begun::Cached(a) => assert_eq!(a.model, "m"),
        _ => panic!("kept"),
    }
    assert!(matches!(engine.begin(&text("b"), &schema), Begun::Wait));
    // Where asking failed, the next one asks.
    let key = ask(engine.begin(&text("c"), &schema));
    let failed = engine.finish(key, "x", &text("c"), &schema, Err(Error::MissingAnswer("q".to_string())), Timestamp::now());
    assert!(failed.is_err());
    ask(engine.begin(&text("c"), &schema));
}

#[test]
fn ask_many_preserves_order() {
    let mock = Mock::with_rule();
    let decide = |state: &Value, schema: &QuestionSchema| {
        mock_answers(&mock, state, schema, &|state, name| {
            let s = state.as_str().unwrap_or("");
            (name == "refund").then(|| answers::noul(bits(if s == "b" { 0.9 } else { 0.1 })))
        })
    };
    let mut engine = Engine::new().with_concurrency(4);
    let mut log = Vec::new();
    let out: Vec<Triage> = ["a", "b", "c"]
        .iter()
        .map(|s| {
            let raw = ask_raw(&mut engine, &mock.id, &text(s), &Triage::schema(), &decide, &mut log).unwrap();
            Triage::from_raw(&raw).unwrap()
        })
        .collect();
    assert_eq!(out.len(), 3);
    assert!(num(out[1].refund.p) > 0.8);
    assert!(num(out[0].refund.p) < 0.2);
}

/// Brier score of recorded pairs.
fn brier(pairs: &[(Binary64, bool)]) -> f64 {
    let sum: f64 = pairs.iter().map(|(p, y)| (num(*p) - if *y { 1.0 } else { 0.0 }).powi(2)).sum();
    sum / pairs.len() as f64
}

#[test]
fn record_replay_and_outcomes_roundtrip() {
    // 1. Record with a mock.
    let mock = Mock::with_rule();
    let decide = |state: &Value, schema: &QuestionSchema| {
        mock_answers(&mock, state, schema, &|_, name| (name == "refund").then(|| answers::noul(bits(0.8))))
    };
    let mut engine = Engine::new().with_recorder();
    let mut log = Vec::new();
    let schema = Triage::schema();
    let raw = ask_raw(&mut engine, &mock.id, &text("x"), &schema, &decide, &mut log).unwrap();
    assert!((num(Triage::from_raw(&raw).unwrap().refund.p) - 0.8).abs() < 1e-9);
    assert_eq!(log.len(), 1);
    assert_eq!(log[0].backend, "mock:rule");
    assert_eq!(log[0].state, text("x"));

    // 2. Replay must return the same answer, and fail on unknown state.
    let replay = Replay::from_jsonl(log, "run.jsonl");
    assert_eq!(replay.len(), 1);
    assert!(!replay.is_empty());
    assert_eq!(replay.id(), "replay:run.jsonl");
    let again = replay.decide(&text("x"), &schema).unwrap();
    assert_eq!(again, raw);
    let err = replay.decide(&text("y"), &schema).unwrap_err();
    assert!(matches!(err, Error::NotRecorded { .. }));
    // With a fallback, its answer counts for unknown states only.
    let miss = replay.lookup(&text("y"), &schema);
    assert!(matches!(miss, Lookup::Miss { .. }));
    assert_eq!(miss.settle(Some(Ok(RawAnswers::default()))).unwrap(), RawAnswers::default());
    let hit = replay.lookup(&text("x"), &schema);
    assert_eq!(hit.settle(Some(Ok(RawAnswers::default()))).unwrap(), raw);

    // 3. Attach an outcome and compute calibration.
    let mut records = vec![Record::new("mock:rule", &text("x"), &schema, &raw), Record::new("mock:rule", &text("y"), &schema, &raw)];
    let mut outcome = serde_json::Map::new();
    outcome.insert("refund".to_string(), Value::Bool(true));
    let mut outcomes = SortedMap::new();
    outcomes.insert(hash_json(&text("x")), Value::Object(outcome));
    assert_eq!(attach_outcomes(&mut records, &outcomes), 1);
    assert!(records[1].outcome.is_none());
    let pairs = CalibrationReport::from_records(&records, "refund");
    assert_eq!(pairs.len(), 1);
    assert!((brier(&pairs) - 0.04).abs() < 1e-9); // (0.8 - 1)^2
    // Attaching once more changes nothing.
    assert_eq!(attach_outcomes(&mut records, &outcomes), 1);
    assert_eq!(CalibrationReport::from_records(&records, "refund"), pairs);
}

#[test]
fn later_records_win() {
    let schema = Triage::schema();
    let first = RawAnswers { model: "first".to_string(), ..Default::default() };
    let second = RawAnswers { model: "second".to_string(), ..Default::default() };
    let log = vec![Record::new("b", &text("x"), &schema, &first), Record::new("b", &text("x"), &schema, &second)];
    let replay = Replay::from_jsonl(log, "r");
    assert_eq!(replay.len(), 1);
    assert_eq!(replay.decide(&text("x"), &schema).unwrap().model, "second");
}

#[test]
fn shadow_returns_primary_and_records_both() {
    let schema = Triage::schema();
    let state = text("x");
    let primary = Mock::with_rule().with_id("p");
    let shadow = Mock::with_rule().with_id("s");
    let p = mock_answers(&primary, &state, &schema, &|_, name| (name == "refund").then(|| answers::noul(bits(0.9))));
    let s = mock_answers(&shadow, &state, &schema, &|_, name| (name == "refund").then(|| answers::noul(bits(0.2))));
    let both = Shadow::new("p", "s").with_recorder();
    assert_eq!(both.id(), "shadow(p | s)");
    let (raw, recs) = both.decide(&state, &schema, p, s, Timestamp::now()).unwrap();
    let t = Triage::from_raw(&raw).unwrap();
    assert!((num(t.refund.p) - 0.9).abs() < 1e-9);
    assert_eq!(recs.len(), 2);
    assert_eq!(recs[0].tag.as_deref(), Some("primary"));
    assert_eq!(recs[1].tag.as_deref(), Some("shadow"));
    assert_eq!(recs[1].backend, "s");
}

#[test]
fn shadow_failure_is_recorded_and_not_returned() {
    let schema = Triage::schema();
    let state = text("x");
    let broken = || Err(Error::Backend { backend: "s".to_string(), message: "down".to_string() });
    let (raw, recs) = Shadow::new("p", "s")
        .with_recorder()
        .decide(&state, &schema, Ok(RawAnswers::default()), broken(), Timestamp::now())
        .unwrap();
    assert_eq!(raw, RawAnswers::default());
    assert_eq!(recs[1].tag.as_deref(), Some("shadow-error"));
    assert_eq!(recs[1].answers, RawAnswers::default());
    // Without a recorder nothing is recorded; a failing primary fails.
    let (_, recs) = Shadow::new("p", "s").decide(&state, &schema, Ok(RawAnswers::default()), broken(), Timestamp::now()).unwrap();
    assert!(recs.is_empty());
    let failed = Shadow::new("p", "s").decide(&state, &schema, broken(), Ok(RawAnswers::default()), Timestamp::now());
    assert_eq!(failed.err().unwrap().message(), "backend `s` failed: down");
}

/// A report out of pairs: the sums are made here, the counts by the library.
fn report(pairs: Vec<(f64, bool)>, n_bins: usize) -> CalibrationReport {
    let pairs = clamp_pairs(&pairs.into_iter().map(|(p, y)| (bits(p), y)).collect());
    let places = pairs.iter().map(|(p, _)| (num(*p) * n_bins as f64) as usize).collect();
    let t = Tally::from_pairs(&pairs, &places, n_bins);
    let n = t.n as f64;
    let mut sums = vec![0.0; n_bins];
    let mut log_loss = 0.0;
    for ((p, y), b) in pairs.iter().zip(&t.bins) {
        sums[*b] += num(*p);
        log_loss -= if *y { (num(*p) + 1e-12).ln() } else { (1.0 - num(*p) + 1e-12).ln() };
    }
    let mut ece = 0.0;
    let mut bins = Vec::new();
    for i in 0..n_bins {
        let c = t.counts[i] as f64;
        let (mean_p, frac_pos) = (sums[i] / c, t.hits[i] as f64 / c);
        if t.counts[i] > 0 {
            ece += c / n * (mean_p - frac_pos).abs();
        }
        bins.push(Bin {
            lo: bits(i as f64 / n_bins as f64),
            hi: bits((i + 1) as f64 / n_bins as f64),
            count: t.counts[i],
            mean_p: bits(mean_p),
            frac_pos: bits(frac_pos),
        });
    }
    CalibrationReport {
        n: t.n,
        brier: bits(brier(&pairs)),
        log_loss: bits(log_loss / n),
        ece: bits(ece),
        accuracy: bits(t.correct as f64 / n),
        base_rate: bits(t.positives as f64 / n),
        bins,
    }
}

fn render(r: &CalibrationReport) -> String {
    let head = Headline {
        brier: format!("{:.4}", num(r.brier)),
        log_loss: format!("{:.4}", num(r.log_loss)),
        ece: format!("{:.4}", num(r.ece)),
        accuracy: format!("{:.3}", num(r.accuracy)),
        base_rate: format!("{:.3}", num(r.base_rate)),
    };
    let shown = r
        .bins
        .iter()
        .map(|b| BinText {
            lo: format!("{:.2}", num(b.lo)),
            hi: format!("{:.2}", num(b.hi)),
            mean_p: format!("{:.3}", num(b.mean_p)),
            frac_pos: format!("{:.3}", num(b.frac_pos)),
            gap: format!("{:.3}", (num(b.mean_p) - num(b.frac_pos)).abs()),
            bar: (num(b.frac_pos) * 20.0).round() as usize,
        })
        .collect();
    r.render(&head, &shown)
}

#[test]
fn calibration_math() {
    // Perfectly calibrated coin at 0.5: brier 0.25, ece ~0.
    let pairs: Vec<(f64, bool)> = (0..1000).map(|i| (0.5, i % 2 == 0)).collect();
    let r = report(pairs, 10);
    assert!((num(r.brier) - 0.25).abs() < 1e-9);
    assert!(num(r.ece) < 1e-9);
    assert!((num(r.base_rate) - 0.5).abs() < 1e-9);
    // Over-confident: says 0.9, right 60%.
    let pairs: Vec<(f64, bool)> = (0..1000).map(|i| (0.9, i % 10 < 6)).collect();
    let r = report(pairs, 10);
    assert!((num(r.ece) - 0.3).abs() < 1e-9);
    assert!(render(&r).contains("ece=0.3000"));
}

#[test]
fn report_renders_line_by_line() {
    let pairs: Vec<(f64, bool)> = vec![(0.25, false), (0.25, true), (1.0, true), (2.0, true)];
    let r = report(pairs, 2);
    assert_eq!(r.n, 4);
    assert_eq!(r.bins[0].count, 2);
    assert_eq!(r.bins[1].count, 2, "a probability of one falls into the last bin");
    let s = render(&r);
    let lines: Vec<&str> = s.lines().collect();
    assert!(lines[0].starts_with("n=4  brier="));
    assert_eq!(lines[1], "  bin          count   mean_p   frac_pos   |gap|");
    assert_eq!(lines[2], "  [0.00,0.50)      2   0.250    0.500   0.250  ##########");
    assert_eq!(lines[3], "  [0.50,1.00)      2   1.000    1.000   0.000  ####################");
    let empty = CalibrationReport {
        n: 0,
        brier: bits(0.0),
        log_loss: bits(0.0),
        ece: bits(0.0),
        accuracy: bits(0.0),
        base_rate: bits(0.0),
        bins: vec![Bin { lo: bits(0.0), hi: bits(0.5), count: 0, mean_p: bits(0.0), frac_pos: bits(0.0) }],
    };
    assert!(render(&empty).ends_with("  [0.00,0.50)      0        -          -       -\n"));
}

#[test]
fn counts_add_up() {
    let pairs: Vec<(Binary64, bool)> = vec![(bits(0.0), true), (bits(0.5), true), (bits(0.49), false), (bits(1.0), false)];
    let t = Tally::from_pairs(&pairs, &vec![0, 1, 0, 7], 2);
    assert_eq!(t.counts, vec![2, 2]);
    assert_eq!(t.hits, vec![1, 1]);
    assert_eq!(t.bins, vec![0, 1, 0, 1]);
    assert_eq!(t.correct, 2);
    assert_eq!(t.positives, 2);
    assert_eq!(t.counts.iter().sum::<usize>(), t.n);
    assert_eq!(t.hits.iter().sum::<usize>(), t.positives);
    let one = Tally::from_pairs(&pairs, &vec![0, 1, 0, 7], 0);
    assert_eq!(one.counts, vec![4]);
}

#[test]
fn pairs_are_one_vs_rest() {
    let schema = Triage::schema();
    let mut all = SortedMap::new();
    all.insert(
        "dept".to_string(),
        RawAnswer::Choice {
            choice: "tech".to_string(),
            probabilities: probabilities(&[("billing", 0.25), ("tech", 0.75)]),
            confidence: bits(0.75),
        },
    );
    all.insert("urgency".to_string(), answers::score(&vec![bits(0.25), bits(0.75)], bits(0.75), &vec!["a".to_string(), "b".to_string()]));
    let raw = RawAnswers { answers: all, ..Default::default() };
    let mut r = Record::new("b", &text("x"), &schema, &raw);
    let mut outcome = serde_json::Map::new();
    outcome.insert("dept".to_string(), text("billing"));
    outcome.insert("urgency".to_string(), Value::from(1u64));
    r.outcome = Some(Value::Object(outcome));
    let records = vec![Record::new("b", &text("y"), &schema, &raw), r];
    assert_eq!(CalibrationReport::from_records(&records, "dept"), vec![(bits(0.25), true), (bits(0.75), false)]);
    assert_eq!(CalibrationReport::from_records(&records, "urgency"), vec![(bits(0.25), false), (bits(0.75), true)]);
    assert_eq!(CalibrationReport::from_records(&records, "refund"), vec![]);
}

#[test]
fn schema_limits_are_enforced() {
    let mut s = QuestionSchema::new();
    s.insert("x", QuestionSpec::Score { instructions: "?".to_string(), criteria: vec!["only one".to_string()] });
    let err = s.validate().unwrap_err();
    assert!(matches!(err, Error::InvalidSchema(_)));
    assert_eq!(err.message(), "invalid schema: score `x` has 1 levels, must be 2..=10");
    let mut s = QuestionSchema::new();
    s.insert(
        "x",
        QuestionSpec::Choice { instructions: "?".to_string(), criteria: (0..256).map(|i| (i.to_string(), None)).collect() },
    );
    let err = s.validate().unwrap_err();
    assert!(matches!(err, Error::InvalidSchema(_)));
    assert_eq!(err.message(), "invalid schema: choice `x` has 256 options, max is 255");
    let err = QuestionSchema::new().validate().unwrap_err();
    assert_eq!(err.message(), "invalid schema: schema has no questions");
    let s = QuestionSchema::new()
        .with("b", QuestionSpec::Choice { instructions: "?".to_string(), criteria: vec![] })
        .with("a", QuestionSpec::Choice { instructions: "?".to_string(), criteria: vec![] });
    assert_eq!(s.len(), 2);
    assert!(!s.is_empty());
    assert_eq!(s.validate().unwrap_err().message(), "invalid schema: choice `a` has no options", "the first by name");
}

#[test]
fn schema_hash_ignores_insertion_order() {
    let noul = |i: &str| QuestionSpec::Noul { instructions: i.to_string(), criteria: None };
    let a = QuestionSchema::new().with("a", noul("1")).with("b", noul("2"));
    let b = QuestionSchema::new().with("b", noul("2")).with("a", noul("1"));
    assert_eq!(a.hash(), b.hash());
    assert_ne!(a.hash(), QuestionSchema::new().with("a", noul("1")).hash());
    // The hash is that of the canonical text.
    assert_eq!(QuestionSchema::new().hash(), "44136fa355b3678a1146ad16f7e8649e94fb4fc21fe77e8310c060f61caaff8a");
    assert_eq!(hash_json(&text("x")).len(), 64);
}

#[test]
fn recorder_stamps_its_tag() {
    let schema = Triage::schema();
    let fresh = || Record::new("b", &text("x"), &schema, &RawAnswers::default());
    assert_eq!(stamp(fresh(), &Some("run".to_string())).tag.as_deref(), Some("run"));
    assert_eq!(stamp(fresh().tagged("own"), &Some("run".to_string())).tag.as_deref(), Some("own"));
    assert_eq!(stamp(fresh(), &None).tag, None);
    assert!(!holds_record(" \t"));
    assert!(holds_record(" {} "));
}

#[test]
fn export_has_nine_columns() {
    let schema = Triage::schema();
    let ts = Timestamp::new(1_700_000_000, 0).unwrap();
    let mut r = Record::at(ts, "b", &text("x"), &schema, &RawAnswers::default());
    r.outcome = Some(Value::Bool(true));
    let cols = export_columns(&vec![r], &vec!["S".to_string()], &vec!["A".to_string()]);
    let names: Vec<&str> = cols.iter().map(|c| c.name).collect();
    assert_eq!(names, ["ts", "backend", "state_hash", "schema_hash", "state", "schema", "answers", "outcome", "tag"]);
    let cells: Vec<Option<&str>> = cols.iter().map(|c| c.cells[0].as_deref()).collect();
    assert_eq!(cells[0], Some("2023-11-14T22:13:20+00:00"));
    assert_eq!(cells[1], Some("b"));
    assert_eq!(cells[4], Some("\"x\""));
    assert_eq!(cells[5], Some("S"));
    assert_eq!(cells[6], Some("A"));
    assert_eq!(cells[7], Some("true"));
    assert_eq!(cells[8], None);
    assert!(cols[7].nullable && cols[8].nullable && !cols[6].nullable);
    assert!(Timestamp::new(i64::MAX, 0).is_none());
}

#[test]
fn read_out_choices_decode_like_official_ones() {
    let spec = QuestionSpec::Choice { instructions: "?".to_string(), criteria: Dept::criteria() };
    let keys: Vec<String> = Dept::all().iter().map(|d| d.key().to_string()).collect();
    let probs = vec![bits(0.25), bits(0.625), bits(0.125)];
    let c = Choice::<Dept>::from_raw("d", &build_answer(&spec, &keys, &probs, bits(0.0))).unwrap();
    assert_eq!(c.argmax(), Dept::Technical);
    assert_eq!(c.confidence, bits(0.625));
    assert_eq!(c.probabilities, [(Dept::Billing, probs[0]), (Dept::Technical, probs[1]), (Dept::Sales, probs[2])]);
}

#[test]
fn outcomes_leave_the_replay_alone() {
    let ts = Timestamp::new(0, 0).unwrap();
    let schema = QuestionSchema::new().with("q", QuestionSpec::Noul { instructions: "?".to_string(), criteria: None });
    let mut all = RawAnswers::default();
    all.answers.insert("q".to_string(), RawAnswer::Noul { noul: bits(0.25), confidence: None });
    let record = || stamp(Record::at(ts, "b", &text("s"), &schema, &all), &Some("tag".to_string()));
    let mut records = vec![record()];
    let mut outcomes = SortedMap::new();
    outcomes.insert(records[0].state_hash.clone(), Value::Bool(true));
    assert_eq!(attach_outcomes(&mut records, &outcomes), 1);
    assert_eq!(records[0].outcome, Some(Value::Bool(true)));
    let marked = Replay::from_jsonl(records, "x").decide(&text("s"), &schema).unwrap();
    let plain = Replay::from_jsonl(vec![record()], "x").decide(&text("s"), &schema).unwrap();
    assert_eq!(marked, plain);
    assert_eq!(plain, all);
}
