//! The ranking tool: options, rows, output, marking.
use serde_json::Value;
use system_one::answer::{RawAnswer, RawAnswers, Usage};
use system_one::ask::{ask_schema, by_level, by_probability, parse_ask};
use system_one::binary64::Binary64;
use system_one::error::Error;
use system_one::hash::hash_json;
use system_one::rank::doc::{Doc, Extract};
use system_one::rank::mark::{count_labelled, mark_outcome, mark_outcomes, marked_line, parse_mark, parse_report, report, resolve_id};
use system_one::rank::options::{parse_opts, USAGE};
use system_one::rank::output::{dry_run, estimate, print_table, skipped, summary, warn_bodyless, RowText};
use system_one::rank::path::{DocPath, Part};
use system_one::rank::questions::{schema, RELEVANT, ROLE};
use system_one::rank::rows::{judge, row_json, short_id, shown_count, sort_rows, state_value, to_row, Judged, Row};
use system_one::rank::run::{check_found, end_ranking, Prepared, RowNumbers};
use system_one::record::{Record, Timestamp};
use system_one::schema::{QuestionSchema, QuestionSpec};
use system_one::sorted_map::SortedMap;

fn bits(x: f64) -> Binary64 {
    Binary64 { bits: x.to_bits() }
}

fn path(s: &str) -> DocPath {
    let parts = s.split('/').map(|p| Part::Name(p.as_bytes().to_vec())).collect();
    DocPath { shown: s.to_string(), parts }
}

fn words(ws: &[&str]) -> Vec<String> {
    ws.iter().map(|s| s.to_string()).collect()
}

fn row(p: &str, x: f64) -> Row {
    Row { id: String::new(), path: path(p), title: String::new(), p: bits(x), role: None, show: vec![] }
}

#[test]
fn sort_is_by_probability_then_path() {
    let mut rows = vec![row("b.md", 0.5), row("a.md", 0.5), row("c.md", 0.9)];
    sort_rows(&mut rows);
    let order: Vec<_> = rows.iter().map(|r| r.path.shown.as_str()).collect();
    assert_eq!(order, ["c.md", "a.md", "b.md"]);
}

#[test]
fn default_schema_is_valid_and_generic() {
    let s = schema(true);
    s.validate().unwrap();
    assert_eq!(s.len(), 2);
    assert_eq!(schema(false).len(), 1);
}

#[test]
fn default_schema_asks_what_it_says() {
    let json = schema(true).to_api_json();
    assert!(json[RELEVANT]["instructions"].as_str().unwrap().starts_with("The reader's question is in `query`. Would reading"));
    assert!(json[RELEVANT]["criteria"]["true"].as_str().unwrap().ends_with("or reports evidence that bears on it."));
    assert_eq!(json[ROLE]["criteria"].as_object().unwrap().len(), 5);
    assert_eq!(json[ROLE]["criteria"]["unrelated"], "Nothing the reader could use for this question.");
}

#[test]
fn options_parse() {
    let args = words(&["--top", "3", "--field", "title", "--lead", "--strip", "<!--.*?-->", "--no-role", "why?", "a", "b"]);
    let o = parse_opts(&args).unwrap();
    assert_eq!(o.top, 3);
    assert_eq!(o.question, "why?");
    assert_eq!(o.paths.len(), 2);
    assert!(o.extract.lead && !o.role);
    assert_eq!(o.extract.strip.len(), 1);
    assert!(parse_opts(&vec!["--bogus".to_string()]).is_err());
    assert!(parse_opts(&vec!["only-a-question".to_string()]).is_err());
    assert!(parse_opts(&words(&["--strip", "(", "q", "p"])).is_err());
}

#[test]
fn usage_errors_have_a_message() {
    assert!(parse_opts(&words(&["--bogus"])).unwrap_err().starts_with("unknown option --bogus\n\nusage:\n  so-rank [options]"));
    assert_eq!(parse_opts(&words(&["q"])).unwrap_err(), format!("need a question and at least one path\n\n{USAGE}"));
    assert_eq!(parse_opts(&words(&["q", "p", "--top"])).unwrap_err(), "--top needs a value");
    assert_eq!(parse_opts(&words(&["--top", "x"])).unwrap_err(), "--top wants a number, got `x`");
    assert_eq!(parse_opts(&words(&["--max-chars", "-1"])).unwrap_err(), "--max-chars wants a number, got `-1`");
    assert!(parse_opts(&words(&["--strip", "("])).unwrap_err().starts_with("--strip `(`: regex parse error"));
}

#[test]
fn options_have_defaults_and_all_can_be_set() {
    let o = parse_opts(&words(&["q", "p"])).unwrap();
    assert_eq!((o.top, o.concurrency, o.extract.max_chars), (10, 8, 2000));
    assert_eq!(o.ext, "md");
    assert!(o.role && !o.json && !o.dry_run && o.record.is_none() && !o.extract.lead);
    let o = parse_opts(&words(&[
        "q", "--section", "s", "--max-chars", "7", "--show", "k", "--ext", "..txt", "--record", "r.jsonl", "--concurrency", "2",
        "--dry-run", "--json", "-x",
    ]))
    .unwrap();
    assert_eq!(o.paths, ["-x"], "one dash is no option");
    assert_eq!(o.extract.sections, ["s"]);
    assert_eq!(o.extract.max_chars, 7);
    assert_eq!(o.show, ["k"]);
    assert_eq!(o.ext, "txt");
    assert_eq!(o.record.as_deref(), Some("r.jsonl"));
    assert_eq!(o.concurrency, 2);
    assert!(o.dry_run && o.json);
    // An option takes the next word, whatever it looks like.
    assert_eq!(parse_opts(&words(&["--field", "--json", "q", "p"])).unwrap().extract.fields, ["--json"]);
}

fn record(hash: &str, outcome: Option<Value>) -> Record {
    Record {
        ts: Timestamp::now(),
        backend: String::new(),
        state_hash: hash.to_string(),
        schema_hash: String::new(),
        state: Value::Null,
        schema: QuestionSchema::new(),
        answers: RawAnswers::default(),
        outcome,
        tag: None,
    }
}

#[test]
fn short_ids_resolve_uniquely_or_fail_loudly() {
    let recs = vec![record("abc111", None), record("abc222", None), record("def333", None), record("def333", None)];
    assert_eq!(resolve_id(&recs, "def").unwrap(), "def333", "same state recorded twice is one id");
    assert!(resolve_id(&recs, "abc").is_err(), "ambiguous");
    assert!(resolve_id(&recs, "zzz").is_err(), "missing");
    assert_eq!(resolve_id(&recs, "abc").unwrap_err(), "id `abc` matches 2 records; use more characters");
    assert_eq!(resolve_id(&recs, "zzz").unwrap_err(), "no record with id `zzz`");
}

#[test]
fn marks_are_read_and_merged() {
    let (file, labels) = parse_mark(&words(&["r.jsonl", "DEF", "--no", "abc1", "--yes", "x"])).unwrap();
    assert_eq!(file, "r.jsonl");
    assert_eq!(labels, vec![("def".to_string(), true), ("abc1".to_string(), false), ("x".to_string(), true)]);
    assert_eq!(parse_mark(&words(&["r.jsonl", "--no"])).unwrap_err(), "mark needs at least one id");
    assert!(parse_mark(&vec![]).unwrap_err().starts_with("mark needs a record file\n\nusage:"));

    let mut other = serde_json::Map::new();
    other.insert("kept".to_string(), Value::from(1u64));
    let recs = vec![record("abc111", None), record("def333", Some(Value::Object(other)))];
    let out = mark_outcomes(&recs, &labels[..2].to_vec()).unwrap();
    assert_eq!(out.len(), 2);
    let def = out.get(&"def333".to_string()).unwrap();
    assert_eq!(def[RELEVANT], true);
    assert_eq!(def["kept"], 1);
    assert_eq!(out.get(&"abc111".to_string()).unwrap()[RELEVANT], false);
    assert_eq!(mark_outcomes(&recs, &labels).unwrap_err(), "no record with id `x`");
    assert_eq!(marked_line(&labels, 4), "marked 2 relevant, 1 not relevant (4 records updated)");
    // An outcome that is no object is replaced.
    assert_eq!(mark_outcome(Some(&Value::Bool(true)), true).as_object().unwrap().len(), 1);
}

#[test]
fn reports_count_labels() {
    let mut m = serde_json::Map::new();
    m.insert(RELEVANT.to_string(), Value::Bool(true));
    let recs = vec![record("a", Some(Value::Object(m))), record("b", Some(Value::Null)), record("c", None)];
    assert_eq!(count_labelled(&recs), 1);
    let lines = report(&recs, "TABLE");
    assert_eq!(lines.len(), 4);
    assert_eq!(lines[0], "3 records, 1 labelled");
    assert_eq!(lines[1], "TABLE");
    assert_eq!(lines[2], "note: under 50 labels the bins are mostly noise.");
    assert!(lines[3].starts_with("note: labels only on rows"));
    assert_eq!(report(&vec![], "T").len(), 3);
    assert!(parse_report(&vec![]).unwrap_err().starts_with("report needs a record file"));
    assert_eq!(parse_report(&words(&["f"])).unwrap(), "f");
}

fn answered(p: f64, role: Option<&str>, tokens: u64) -> RawAnswers {
    let mut all = SortedMap::new();
    all.insert(RELEVANT.to_string(), RawAnswer::Noul { noul: bits(p), confidence: None });
    if let Some(r) = role {
        all.insert(
            ROLE.to_string(),
            RawAnswer::Choice { choice: r.to_string(), probabilities: SortedMap::new(), confidence: bits(0.75) },
        );
    }
    RawAnswers { answers: all, model: "m".to_string(), usage: Usage { input_tokens: tokens, output_tokens: 0 } }
}

#[test]
fn rows_carry_what_is_printed() {
    let d = Doc::parse(path("n/a.md"), "---\nyear: 2015\n---\n# T\nbody");
    let state = state_value("why?", Value::Null);
    assert_eq!(state["query"], "why?");
    let show = words(&["year", "none"]);
    let r = to_row(&d, &d.title(), &state, &answered(0.5, Some("method"), 3), &show, "").unwrap();
    assert_eq!(r.id, hash_json(&state)[..8]);
    assert_eq!(r.title, "T");
    assert_eq!(r.show, vec![("year".to_string(), "2015".to_string()), ("none".to_string(), String::new())]);
    let json = row_json(1, &r, Value::from(0.5), Value::from(0.75));
    assert_eq!(json["rank"], 1);
    assert_eq!(json["path"], "n/a.md");
    assert_eq!(json[RELEVANT], 0.5);
    assert_eq!(json[ROLE]["choice"], "method");
    assert_eq!(json[ROLE]["confidence"], 0.75);
    assert_eq!(json["year"], "2015");

    let lines = print_table(&vec![r], &vec![RowText { p: "0.500".to_string(), confidence: "0.75".to_string() }], &show, 1);
    assert_eq!(lines.len(), 3);
    assert_eq!(lines[0], format!("  1. 0.500  method (0.75)        T  [{}]", &hash_json(&state)[..8]));
    assert_eq!(lines[1], "     n/a.md");
    assert_eq!(lines[2], "     year: 2015");

    let none = RawAnswers::default();
    assert_eq!(to_row(&d, "T", &state, &none, &show, "").unwrap_err(), Error::MissingAnswer(RELEVANT.to_string()));
    let mut wrong = SortedMap::new();
    wrong.insert(
        RELEVANT.to_string(),
        RawAnswer::Choice { choice: "c".to_string(), probabilities: SortedMap::new(), confidence: bits(0.0) },
    );
    let wrong = RawAnswers { answers: wrong, ..Default::default() };
    assert_eq!(
        to_row(&d, "T", &state, &wrong, &show, "Choice").unwrap_err().message(),
        "answer for question `relevant` does not match schema: expected a noul, got Choice"
    );
    assert_eq!(short_id("0123456789"), "01234567");
    assert_eq!(short_id("012"), "012");
}

#[test]
fn every_document_is_a_row_or_a_failure() {
    let docs = vec![Doc::parse(path("a.md"), "a"), Doc::parse(path("b.md"), "b"), Doc::parse(path("c.md"), "c")];
    let states = vec![Value::from(1u64), Value::from(2u64), Value::from(3u64)];
    let broken = Error::Backend { backend: "x".to_string(), message: "down".to_string() };
    let answers = vec![Ok(answered(0.25, None, 5)), Err(broken), Ok(RawAnswers::default())];
    let got = words(&["", "", ""]);
    let titles = words(&["A", "B", "C"]);
    let j = judge(&docs, &titles, &states, &answers, &vec![], &got);
    assert_eq!(j.rows.len(), 1);
    assert_eq!(j.rows[0].title, "A");
    assert_eq!(j.tokens, 5);
    assert_eq!(j.model, "m");
    assert_eq!(
        j.failed,
        ["b.md: backend `x` failed: down", "c.md: backend returned no answer for question `relevant`"]
    );
    assert_eq!(summary(&j, 1, &None), "\n1 documents judged, 1 shown · model m · 5 input tokens");
    assert!(summary(&j, 1, &Some("r".to_string())).ends_with(" input tokens · recorded to r"));
    assert_eq!(shown_count(0, 7), 7);
    assert_eq!(shown_count(3, 7), 3);
    assert_eq!(shown_count(9, 7), 7);
    assert_eq!(skipped(&j.failed)[0], "skipped: b.md: backend `x` failed: down");
}

fn document(text: Option<&str>) -> Value {
    let mut d = serde_json::Map::new();
    if let Some(t) = text {
        d.insert("text".to_string(), Value::String(t.to_string()));
    }
    state_value("q", Value::Object(d))
}

#[test]
fn documents_without_text_are_named() {
    let docs: Vec<Doc> = (0..7).map(|i| Doc::parse(path(&format!("{i}.md")), "")).collect();
    let mut states: Vec<Value> = (0..7).map(|_| document(None)).collect();
    states[0] = document(Some("t"));
    let lines = warn_bodyless(2000, &docs, &states);
    assert_eq!(lines.len(), 7);
    assert_eq!(
        lines[0],
        "warning: 6 of 7 documents have no body text after --lead/--section/--strip and are judged on title and fields only:"
    );
    assert_eq!(lines[1], "  1.md");
    assert_eq!(lines[6], "  … and 1 more (see --dry-run --json)");
    assert!(warn_bodyless(0, &docs, &states).is_empty());
    let texts: Vec<Value> = (0..7).map(|_| document(Some("t"))).collect();
    assert!(warn_bodyless(1, &docs, &texts).is_empty());
}

#[test]
fn dry_runs_estimate_and_send_nothing() {
    assert_eq!(estimate("abcdefgh"), 2);
    assert_eq!(estimate("abc队列"), 2);
    let docs = vec![Doc::parse(path("a.md"), "")];
    let states = vec![document(Some("t"))];
    let s = schema(false);
    let n = estimate(&states[0].to_string()) + estimate(&s.to_api_json().to_string());
    let p = dry_run(true, &docs, &states, &s, &words(&["x: gone"])).unwrap();
    assert_eq!(p.out.len(), 1);
    let line: Value = serde_json::from_str(&p.out[0]).unwrap();
    assert_eq!(line["path"], "a.md");
    assert_eq!(line["approx_tokens"], n as u64);
    assert_eq!(line["state"], states[0]);
    assert_eq!(p.err[0], format!("dry run: 1 documents, 1 requests, ≈{n} input tokens. Nothing was sent."));
    assert_eq!(p.err[1], "skipped: x: gone");
    let p = dry_run(false, &docs, &states, &s, &vec![]).unwrap();
    assert_eq!(p.out, [format!("first state:\n{}", serde_json::to_string_pretty(&states[0]).unwrap())]);
    assert!(dry_run(false, &vec![], &vec![], &s, &vec![]).unwrap().out.is_empty());
}

#[test]
fn one_question_from_the_command_line() {
    let (spec, state) = parse_ask(&words(&["Refund?", "text"])).unwrap();
    assert_eq!(spec, QuestionSpec::Noul { instructions: "Refund?".to_string(), criteria: None });
    assert_eq!(state, "text");
    let (spec, state) = parse_ask(&words(&["--choice", "billing, sales", "Which?", "s", "more"])).unwrap();
    assert_eq!(
        spec,
        QuestionSpec::Choice {
            instructions: "Which?".to_string(),
            criteria: vec![("billing".to_string(), None), ("sales".to_string(), None)],
        }
    );
    assert_eq!(state, "s");
    let (spec, _) = parse_ask(&words(&["--levels", "a,b , c", "How?", "s"])).unwrap();
    assert_eq!(spec, QuestionSpec::Score { instructions: "How?".to_string(), criteria: words(&["a", "b", "c"]) });
    assert!(parse_ask(&words(&["q"])).is_none());
    assert!(parse_ask(&words(&["--levels", "a,b", "q"])).is_none());
    assert!(parse_ask(&vec![]).is_none());
    let (one, _) = parse_ask(&words(&["--levels", "a", "q", "s"])).unwrap();
    assert_eq!(ask_schema(one).unwrap_err().message(), "invalid schema: score `q` has 1 levels, must be 2..=10");
    let (ok, _) = parse_ask(&words(&["q", "s"])).unwrap();
    assert_eq!(ask_schema(ok).unwrap().len(), 1);
}

#[test]
fn answers_print_in_order() {
    let mut m = SortedMap::new();
    for (k, p) in [("10", 0.25), ("2", 0.5), ("x", 0.25)] {
        m.insert(k.to_string(), bits(p));
    }
    let by_p: Vec<String> = by_probability(&m).into_iter().map(|w| w.key).collect();
    assert_eq!(by_p, ["2", "10", "x"]);
    let by_l: Vec<String> = by_level(&m).into_iter().map(|w| w.key).collect();
    assert_eq!(by_l, ["x", "2", "10"]);
}

#[test]
fn files_become_documents_or_reasons() {
    let files = vec![path("n/a.md"), path("n/b.md")];
    assert_eq!(check_found(&files, "md"), Ok(()));
    assert_eq!(check_found(&vec![], "md"), Err("no .md files under the given paths".to_string()));
    let ex = Extract::default();
    let mut p = Prepared::new();
    p.take_in(path("n/a.md"), Ok("---\nyear: 1\n---\n# Heading\ntext".to_string()), "why?", &ex);
    p.take_in(path("n/b.md"), Err("denied".to_string()), "why?", &ex);
    assert_eq!(p.docs.len() + p.unreadable.len(), 2);
    assert_eq!(p.unreadable, ["n/b.md: denied"]);
    assert_eq!(p.states[0]["query"], "why?");
    assert_eq!(p.states[0]["document"]["title"], "Heading");
    assert_eq!(p.states[0]["document"]["text"], "# Heading\ntext");
    assert_eq!(p.docs[0].body, "", "only the extracted state is kept");
    assert_eq!(p.titles, ["Heading"], "the title is that of the whole document");
    let answers = vec![Ok(answered(0.5, None, 1))];
    let j = judge(&p.docs, &p.titles, &p.states, &answers, &vec![], &words(&[""]));
    assert_eq!(j.rows[0].title, "Heading");

    let mut untitled = Prepared::new();
    untitled.take_in(path("x/plain.md"), Ok("text".to_string()), "why?", &ex);
    assert_eq!(untitled.titles, ["plain"]);
}

#[test]
fn a_ranking_ends_with_everything_said() {
    let mut o = parse_opts(&words(&["--top", "1", "q", "p"])).unwrap();
    let judged = |failed: &[&str]| Judged {
        rows: vec![row("a.md", 0.75), row("b.md", 0.5)],
        failed: words(failed),
        tokens: 9,
        model: "m".to_string(),
    };
    let text = |p: &str| RowText { p: p.to_string(), confidence: String::new() };
    let texts = vec![text("0.750"), text("0.500")];
    let e = end_ranking(&o, &judged(&[]), &texts, &vec![], &words(&["c.md: gone"]));
    assert_eq!(e.status, 0);
    assert_eq!(e.printed.out, ["  1. 0.750                         []", "     a.md"]);
    assert_eq!(e.printed.err, ["\n2 documents judged, 1 shown · model m · 9 input tokens", "skipped: c.md: gone"]);

    o.json = true;
    o.top = 0;
    o.record = Some("r.jsonl".to_string());
    let number = |p: f64| RowNumbers { p: Value::from(p), confidence: Value::Null };
    let e = end_ranking(&o, &judged(&["d.md: down"]), &vec![], &vec![number(0.75), number(0.5)], &vec![]);
    assert_eq!(e.status, 2, "a document that was not judged fails the run");
    assert_eq!(
        e.printed.out,
        [
            "{\"id\":\"\",\"path\":\"a.md\",\"rank\":1,\"relevant\":0.75,\"title\":\"\"}",
            "{\"id\":\"\",\"path\":\"b.md\",\"rank\":2,\"relevant\":0.5,\"title\":\"\"}",
        ]
    );
    assert_eq!(
        e.printed.err,
        ["\n2 documents judged, 2 shown · model m · 9 input tokens · recorded to r.jsonl", "skipped: d.md: down"]
    );
}
