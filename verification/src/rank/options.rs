//! The command line of the ranking tool.
use vstd::prelude::*;
use vstd::string::*;

use crate::numeral::{parse, parse_usize};
use crate::rank::doc::{Extract, ExtractView};
use crate::rank::pattern::{regex_error, Pattern};
use crate::schema::opt_text;
use crate::sorting::views;
use crate::text::{chars_of, equal, has_prefix, starts_with, string_of, strings};

verus! {

pub const USAGE: &'static str = "\
usage:
  so-rank [options] <question> <path>...
  so-rank mark <record.jsonl> <id>... [--no <id>...]
  so-rank report <record.jsonl>

options:
  --top N          rows to print (default 10; 0 = all)
  --field KEY      front-matter key to send (repeatable; default: every key)
  --lead           send the text between the first `# ` heading and the next heading
  --section TEXT   send sections whose heading contains TEXT (repeatable)
                   (without --lead or --section the body is sent from the top)
  --max-chars N    body characters per document; 0 = no body (default 2000)
  --strip REGEX    delete matches from the body first (repeatable; (?m) (?s) allowed)
  --show KEY       front-matter key to print next to each row (repeatable)
  --ext EXT        file extension to load (default md)
  --no-role        skip the question about what each document contributes
  --record FILE    append every decision to FILE (JSONL); enables mark and report
  --concurrency N  requests in flight (default 8)
  --dry-run        build every request and estimate tokens; call nothing
  --json           one JSON object per row instead of a table";

/// What the command line asks for.
#[derive(Debug)]
pub struct Opts {
    pub question: String,
    pub paths: Vec<String>,
    pub extract: Extract,
    pub top: usize,
    pub show: Vec<String>,
    pub ext: String,
    pub role: bool,
    pub record: Option<String>,
    pub concurrency: usize,
    pub dry_run: bool,
    pub json: bool,
}

#[verifier::ext_equal]
pub struct OptsView {
    pub question: Seq<char>,
    pub paths: Seq<Seq<char>>,
    pub extract: ExtractView,
    pub top: usize,
    pub show: Seq<Seq<char>>,
    pub ext: Seq<char>,
    pub role: bool,
    pub record: Option<Seq<char>>,
    pub concurrency: usize,
    pub dry_run: bool,
    pub json: bool,
}

impl View for Opts {
    type V = OptsView;

    open spec fn view(&self) -> OptsView {
        OptsView {
            question: self.question@,
            paths: strings(self.paths@),
            extract: self.extract@,
            top: self.top,
            show: strings(self.show@),
            ext: self.ext@,
            role: self.role,
            record: opt_text(self.record),
            concurrency: self.concurrency,
            dry_run: self.dry_run,
            json: self.json,
        }
    }
}

/// The options before anything is read; `paths` takes in the words that
/// belong to no option.
pub open spec fn initial_opts() -> OptsView {
    OptsView {
        question: seq![],
        paths: seq![],
        extract: ExtractView { fields: seq![], lead: false, sections: seq![], max_chars: 2000, strip: seq![] },
        top: 10,
        show: seq![],
        ext: "md"@,
        role: true,
        record: None,
        concurrency: 8,
        dry_run: false,
        json: false,
    }
}

/// The options that are followed by a value.
pub open spec fn takes_value(a: Seq<char>) -> bool {
    a == "--top"@ || a == "--field"@ || a == "--section"@ || a == "--max-chars"@ || a == "--strip"@ || a == "--show"@ || a == "--ext"@ || a
        == "--record"@ || a == "--concurrency"@
}

/// A value without its leading dots.
pub open spec fn without_dots(v: Seq<char>) -> Seq<char>
    decreases v.len(),
{
    if v.len() > 0 && v[0] == '.' {
        without_dots(v.drop_first())
    } else {
        v
    }
}

pub open spec fn number(flag: Seq<char>, v: Seq<char>) -> Result<usize, Seq<char>> {
    match parse(v) {
        Some(n) => Ok(n),
        None => Err(flag + " wants a number, got `"@ + v + "`"@),
    }
}

/// An option with its value read.
pub open spec fn value_read(o: OptsView, a: Seq<char>, v: Seq<char>) -> Result<OptsView, Seq<char>> {
    if a == "--top"@ {
        match number(a, v) {
            Ok(n) => Ok(OptsView { top: n, ..o }),
            Err(e) => Err(e),
        }
    } else if a == "--field"@ {
        Ok(OptsView { extract: ExtractView { fields: o.extract.fields.push(v), ..o.extract }, ..o })
    } else if a == "--section"@ {
        Ok(OptsView { extract: ExtractView { sections: o.extract.sections.push(v), ..o.extract }, ..o })
    } else if a == "--max-chars"@ {
        match number(a, v) {
            Ok(n) => Ok(OptsView { extract: ExtractView { max_chars: n as nat, ..o.extract }, ..o }),
            Err(e) => Err(e),
        }
    } else if a == "--strip"@ {
        match regex_error(v) {
            None => Ok(OptsView { extract: ExtractView { strip: o.extract.strip.push(v), ..o.extract }, ..o }),
            Some(e) => Err("--strip `"@ + v + "`: "@ + e),
        }
    } else if a == "--show"@ {
        Ok(OptsView { show: o.show.push(v), ..o })
    } else if a == "--ext"@ {
        Ok(OptsView { ext: without_dots(v), ..o })
    } else if a == "--record"@ {
        Ok(OptsView { record: Some(v), ..o })
    } else {
        match number(a, v) {
            Ok(n) => Ok(OptsView { concurrency: n, ..o }),
            Err(e) => Err(e),
        }
    }
}

/// A word that is followed by no value read.
pub open spec fn word_read(o: OptsView, a: Seq<char>) -> Result<OptsView, Seq<char>> {
    if a == "--lead"@ {
        Ok(OptsView { extract: ExtractView { lead: true, ..o.extract }, ..o })
    } else if a == "--no-role"@ {
        Ok(OptsView { role: false, ..o })
    } else if a == "--dry-run"@ {
        Ok(OptsView { dry_run: true, ..o })
    } else if a == "--json"@ {
        Ok(OptsView { json: true, ..o })
    } else if starts_with(a, seq!['-', '-']) {
        Err("unknown option "@ + a + "\n\n"@ + USAGE@)
    } else {
        Ok(OptsView { paths: o.paths.push(a), ..o })
    }
}

/// The words of the command line read from left to right.
pub open spec fn words_read(o: OptsView, args: Seq<Seq<char>>) -> Result<OptsView, Seq<char>>
    decreases args.len(),
{
    if args.len() == 0 {
        Ok(o)
    } else if takes_value(args[0]) {
        if args.len() == 1 {
            Err(args[0] + " needs a value"@)
        } else {
            match value_read(o, args[0], args[1]) {
                Ok(p) => words_read(p, args.skip(2)),
                Err(e) => Err(e),
            }
        }
    } else {
        match word_read(o, args[0]) {
            Ok(p) => words_read(p, args.skip(1)),
            Err(e) => Err(e),
        }
    }
}

/// What a command line asks for, or what is wrong with it. Of the words that
/// belong to no option the first is the question, the others are paths.
pub open spec fn command(args: Seq<Seq<char>>) -> Result<OptsView, Seq<char>> {
    match words_read(initial_opts(), args) {
        Err(e) => Err(e),
        Ok(o) => if o.paths.len() < 2 {
            Err("need a question and at least one path\n\n"@ + USAGE@)
        } else {
            Ok(OptsView { question: o.paths[0], paths: o.paths.skip(1), ..o })
        },
    }
}

fn number_of(flag: &str, v: &str) -> (r: Result<usize, String>)
    ensures
        match number(flag@, v@) {
            Ok(n) => r matches Ok(m) && m == n,
            Err(e) => r matches Err(f) && f@ == e,
        },
{
    match parse_usize(chars_of(v).as_slice()) {
        Some(n) => Ok(n),
        None => {
            let mut m = flag.to_owned();
            m.push_str(" wants a number, got `");
            m.push_str(v);
            m.push_str("`");
            Err(m)
        },
    }
}

fn trim_dots(v: &str) -> (r: String)
    ensures
        r@ == without_dots(v@),
{
    let cs = chars_of(v);
    let n = cs.len();
    let mut i: usize = 0;
    assert(v@.skip(0) =~= v@);
    while i < n && cs[i] == '.'
        invariant
            i <= n == cs@.len(),
            cs@ == v@,
            without_dots(v@) == without_dots(v@.skip(i as int)),
        decreases n - i,
    {
        assert(v@.skip(i as int).drop_first() =~= v@.skip(i + 1));
        i += 1;
    }
    let rest = &cs.as_slice()[i..n];
    assert(rest@ =~= v@.skip(i as int));
    string_of(rest)
}

fn needs_value(a: &str) -> (r: bool)
    ensures
        r == takes_value(a@),
{
    equal(a, "--top") || equal(a, "--field") || equal(a, "--section") || equal(a, "--max-chars") || equal(a, "--strip") || equal(a, "--show")
        || equal(a, "--ext") || equal(a, "--record") || equal(a, "--concurrency")
}

proof fn lemma_strings_push(v: Seq<String>, s: String)
    ensures
        strings(v.push(s)) == strings(v).push(s@),
{
    assert(strings(v.push(s)) =~= strings(v).push(s@));
}

impl Opts {
    fn read_value(&mut self, a: &str, v: &String) -> (r: Result<(), String>)
        requires
            takes_value(a@),
        ensures
            match value_read(old(self)@, a@, v@) {
                Ok(o) => r is Ok && final(self)@ == o,
                Err(e) => r matches Err(f) && f@ == e,
            },
    {
        proof {
            lemma_strings_push(self.extract.fields@, *v);
            lemma_strings_push(self.extract.sections@, *v);
            lemma_strings_push(self.show@, *v);
        }
        if equal(a, "--top") {
            match number_of(a, v.as_str()) {
                Ok(n) => {
                    self.top = n;
                },
                Err(e) => {
                    return Err(e);
                },
            }
        } else if equal(a, "--field") {
            self.extract.fields.push(v.clone());
        } else if equal(a, "--section") {
            self.extract.sections.push(v.clone());
        } else if equal(a, "--max-chars") {
            match number_of(a, v.as_str()) {
                Ok(n) => {
                    self.extract.max_chars = n;
                },
                Err(e) => {
                    return Err(e);
                },
            }
        } else if equal(a, "--strip") {
            match Pattern::new(v.as_str()) {
                Ok(p) => {
                    let ghost before = self.extract.strip@;
                    self.extract.strip.push(p);
                    assert(views(self.extract.strip@) =~= views(before).push(v@));
                },
                Err(e) => {
                    let mut m = "--strip `".to_owned();
                    m.push_str(v.as_str());
                    m.push_str("`: ");
                    m.push_str(e.as_str());
                    return Err(m);
                },
            }
        } else if equal(a, "--show") {
            self.show.push(v.clone());
        } else if equal(a, "--ext") {
            self.ext = trim_dots(v.as_str());
        } else if equal(a, "--record") {
            self.record = Some(v.clone());
        } else {
            match number_of(a, v.as_str()) {
                Ok(n) => {
                    self.concurrency = n;
                },
                Err(e) => {
                    return Err(e);
                },
            }
        }
        Ok(())
    }

    fn read_word(&mut self, a: &String) -> (r: Result<(), String>)
        ensures
            match word_read(old(self)@, a@) {
                Ok(o) => r is Ok && final(self)@ == o,
                Err(e) => r matches Err(f) && f@ == e,
            },
    {
        let s = a.as_str();
        let dashes: Vec<char> = vec!['-', '-'];
        assert(dashes@ =~= seq!['-', '-']);
        if equal(s, "--lead") {
            self.extract.lead = true;
        } else if equal(s, "--no-role") {
            self.role = false;
        } else if equal(s, "--dry-run") {
            self.dry_run = true;
        } else if equal(s, "--json") {
            self.json = true;
        } else if has_prefix(chars_of(s).as_slice(), dashes.as_slice()) {
            let mut m = "unknown option ".to_owned();
            m.push_str(s);
            m.push_str("\n\n");
            m.push_str(USAGE);
            return Err(m);
        } else {
            proof {
                lemma_strings_push(self.paths@, *a);
            }
            self.paths.push(a.clone());
        }
        Ok(())
    }
}

/// What a command line asks for.
pub fn parse_opts(args: &Vec<String>) -> (r: Result<Opts, String>)
    ensures
        match command(strings(args@)) {
            Ok(o) => r matches Ok(p) && p@ == o,
            Err(e) => r matches Err(f) && f@ == e,
        },
{
    let mut o = Opts {
        question: String::new(),
        paths: Vec::new(),
        extract: Extract::default(),
        top: 10,
        show: Vec::new(),
        ext: "md".to_owned(),
        role: true,
        record: None,
        concurrency: 8,
        dry_run: false,
        json: false,
    };
    assert(o@ =~= initial_opts());
    let ghost all = strings(args@);
    let n = args.len();
    let mut i: usize = 0;
    assert(all.skip(0) =~= all);
    while i < n
        invariant
            i <= n == args@.len(),
            all == strings(args@),
            words_read(initial_opts(), all) == words_read(o@, all.skip(i as int)),
        decreases n - i,
    {
        let ghost rest = all.skip(i as int);
        assert(rest[0] == args@[i as int]@);
        if needs_value(args[i].as_str()) {
            if i + 1 == n {
                let mut m = args[i].clone();
                m.push_str(" needs a value");
                return Err(m);
            }
            assert(rest[1] == args@[i + 1]@);
            match o.read_value(args[i].as_str(), &args[i + 1]) {
                Ok(_) => {},
                Err(e) => {
                    return Err(e);
                },
            }
            assert(rest.skip(2) =~= all.skip(i + 2));
            i += 2;
        } else {
            match o.read_word(&args[i]) {
                Ok(_) => {},
                Err(e) => {
                    return Err(e);
                },
            }
            assert(rest.skip(1) =~= all.skip(i + 1));
            i += 1;
        }
    }
    assert(all.skip(n as int).len() == 0);
    if o.paths.len() < 2 {
        let mut m = "need a question and at least one path\n\n".to_owned();
        m.push_str(USAGE);
        return Err(m);
    }
    let ghost words = o.paths@;
    o.question = o.paths.remove(0);
    assert(strings(o.paths@) =~= strings(words).skip(1));
    Ok(o)
}

/// A command line that is accepted names a question and at least one path.
pub proof fn accepted_command_is_complete(args: Seq<Seq<char>>)
    ensures
        command(args) matches Ok(o) ==> o.paths.len() >= 1,
{
}

/// An option that takes a value is refused as the last word.
pub proof fn last_option_needs_its_value(o: OptsView, flag: Seq<char>)
    requires
        takes_value(flag),
    ensures
        words_read(o, seq![flag]) == Err::<OptsView, Seq<char>>(flag + " needs a value"@),
{
}

proof fn lemma_flags_differ()
    ensures
        "--top"@ != "--field"@,
        "--section"@ != "--top"@ && "--section"@ != "--field"@,
        "--max-chars"@ != "--top"@ && "--max-chars"@ != "--field"@ && "--max-chars"@ != "--section"@,
        "--strip"@ != "--top"@ && "--strip"@ != "--field"@ && "--strip"@ != "--section"@ && "--strip"@ != "--max-chars"@,
        "--show"@ != "--top"@ && "--show"@ != "--field"@ && "--show"@ != "--section"@ && "--show"@ != "--max-chars"@ && "--show"@ != "--strip"@,
        "--ext"@ != "--top"@ && "--ext"@ != "--field"@ && "--ext"@ != "--section"@ && "--ext"@ != "--max-chars"@ && "--ext"@ != "--strip"@
            && "--ext"@ != "--show"@,
        "--record"@ != "--top"@ && "--record"@ != "--field"@ && "--record"@ != "--section"@ && "--record"@ != "--max-chars"@ && "--record"@
            != "--strip"@ && "--record"@ != "--show"@ && "--record"@ != "--ext"@,
        "--concurrency"@ != "--top"@ && "--concurrency"@ != "--field"@ && "--concurrency"@ != "--section"@ && "--concurrency"@ != "--max-chars"@
            && "--concurrency"@ != "--strip"@ && "--concurrency"@ != "--show"@ && "--concurrency"@ != "--ext"@ && "--concurrency"@ != "--record"@,
        "--lead"@ != "--no-role"@ && "--lead"@ != "--dry-run"@ && "--lead"@ != "--json"@ && "--no-role"@ != "--dry-run"@ && "--no-role"@
            != "--json"@ && "--dry-run"@ != "--json"@,
        !takes_value("--lead"@) && !takes_value("--no-role"@) && !takes_value("--dry-run"@) && !takes_value("--json"@),
{
    reveal_strlit("--top");
    reveal_strlit("--field");
    reveal_strlit("--section");
    reveal_strlit("--max-chars");
    reveal_strlit("--strip");
    reveal_strlit("--show");
    reveal_strlit("--ext");
    reveal_strlit("--record");
    reveal_strlit("--concurrency");
    reveal_strlit("--lead");
    reveal_strlit("--no-role");
    reveal_strlit("--dry-run");
    reveal_strlit("--json");
    assert("--top"@[2] == 't' && "--field"@[2] == 'f' && "--section"@[3] == 'e' && "--max-chars"@[2] == 'm');
    assert("--strip"@[3] == 't' && "--show"@[3] == 'h' && "--ext"@[2] == 'e' && "--record"@[2] == 'r' && "--concurrency"@[2] == 'c');
    assert("--section"@[2] == 's' && "--strip"@[2] == 's' && "--show"@[2] == 's');
    assert("--lead"@[2] == 'l' && "--no-role"@[2] == 'n' && "--dry-run"@[2] == 'd' && "--json"@[2] == 'j');
}

/// An option with a value changes what it is named for and nothing else, and
/// the words behind it are read on; options that may come again add up. A value
/// that is no number, or no pattern, is refused where one is wanted.
pub proof fn options_set_what_they_name(o: OptsView, v: Seq<char>, rest: Seq<Seq<char>>)
    ensures
        words_read(o, seq!["--top"@, v] + rest) == (match parse(v) {
            Some(n) => words_read(OptsView { top: n, ..o }, rest),
            None => Err("--top"@ + " wants a number, got `"@ + v + "`"@),
        }),
        words_read(o, seq!["--max-chars"@, v] + rest) == (match parse(v) {
            Some(n) => words_read(OptsView { extract: ExtractView { max_chars: n as nat, ..o.extract }, ..o }, rest),
            None => Err("--max-chars"@ + " wants a number, got `"@ + v + "`"@),
        }),
        words_read(o, seq!["--concurrency"@, v] + rest) == (match parse(v) {
            Some(n) => words_read(OptsView { concurrency: n, ..o }, rest),
            None => Err("--concurrency"@ + " wants a number, got `"@ + v + "`"@),
        }),
        words_read(o, seq!["--field"@, v] + rest) == words_read(
            OptsView { extract: ExtractView { fields: o.extract.fields.push(v), ..o.extract }, ..o },
            rest,
        ),
        words_read(o, seq!["--section"@, v] + rest) == words_read(
            OptsView { extract: ExtractView { sections: o.extract.sections.push(v), ..o.extract }, ..o },
            rest,
        ),
        words_read(o, seq!["--strip"@, v] + rest) == (match regex_error(v) {
            None => words_read(OptsView { extract: ExtractView { strip: o.extract.strip.push(v), ..o.extract }, ..o }, rest),
            Some(e) => Err("--strip `"@ + v + "`: "@ + e),
        }),
        words_read(o, seq!["--show"@, v] + rest) == words_read(OptsView { show: o.show.push(v), ..o }, rest),
        words_read(o, seq!["--ext"@, v] + rest) == words_read(OptsView { ext: without_dots(v), ..o }, rest),
        words_read(o, seq!["--record"@, v] + rest) == words_read(OptsView { record: Some(v), ..o }, rest),
{
    lemma_flags_differ();
    assert((seq!["--top"@, v] + rest).skip(2) =~= rest);
    assert((seq!["--max-chars"@, v] + rest).skip(2) =~= rest);
    assert((seq!["--concurrency"@, v] + rest).skip(2) =~= rest);
    assert((seq!["--field"@, v] + rest).skip(2) =~= rest);
    assert((seq!["--section"@, v] + rest).skip(2) =~= rest);
    assert((seq!["--strip"@, v] + rest).skip(2) =~= rest);
    assert((seq!["--show"@, v] + rest).skip(2) =~= rest);
    assert((seq!["--ext"@, v] + rest).skip(2) =~= rest);
    assert((seq!["--record"@, v] + rest).skip(2) =~= rest);
}

/// A switch turns on, or off, what it is named for; a word that starts with two
/// dashes and is no option is refused; any other word is kept, in order.
pub proof fn switches_and_words(o: OptsView, w: Seq<char>, rest: Seq<Seq<char>>)
    ensures
        words_read(o, seq![]) == Ok::<OptsView, Seq<char>>(o),
        words_read(o, seq!["--lead"@] + rest) == words_read(OptsView { extract: ExtractView { lead: true, ..o.extract }, ..o }, rest),
        words_read(o, seq!["--no-role"@] + rest) == words_read(OptsView { role: false, ..o }, rest),
        words_read(o, seq!["--dry-run"@] + rest) == words_read(OptsView { dry_run: true, ..o }, rest),
        words_read(o, seq!["--json"@] + rest) == words_read(OptsView { json: true, ..o }, rest),
        !(w.len() >= 2 && w[0] == '-' && w[1] == '-') ==> words_read(o, seq![w] + rest) == words_read(OptsView { paths: o.paths.push(w), ..o }, rest),
        (w.len() >= 2 && w[0] == '-' && w[1] == '-' && !takes_value(w) && w != "--lead"@ && w != "--no-role"@ && w != "--dry-run"@ && w != "--json"@)
            ==> words_read(o, seq![w] + rest) == Err::<OptsView, Seq<char>>("unknown option "@ + w + "\n\n"@ + USAGE@),
{
    lemma_flags_differ();
    assert((seq!["--lead"@] + rest).skip(1) =~= rest);
    assert((seq!["--no-role"@] + rest).skip(1) =~= rest);
    assert((seq!["--dry-run"@] + rest).skip(1) =~= rest);
    assert((seq!["--json"@] + rest).skip(1) =~= rest);
    assert((seq![w] + rest).skip(1) =~= rest);
    if w.len() >= 2 && w[0] == '-' && w[1] == '-' {
        assert(w.take(2) =~= seq!['-', '-']);
    } else {
        assert(!starts_with(w, seq!['-', '-'])) by {
            if starts_with(w, seq!['-', '-']) {
                assert(w.take(2)[0] == '-' && w.take(2)[1] == '-');
            }
        }
        lemma_options_start_with_dashes(w);
    }
}

proof fn lemma_options_start_with_dashes(w: Seq<char>)
    requires
        !(w.len() >= 2 && w[0] == '-' && w[1] == '-'),
    ensures
        !takes_value(w),
        w != "--lead"@ && w != "--no-role"@ && w != "--dry-run"@ && w != "--json"@,
{
    reveal_strlit("--top");
    reveal_strlit("--field");
    reveal_strlit("--section");
    reveal_strlit("--max-chars");
    reveal_strlit("--strip");
    reveal_strlit("--show");
    reveal_strlit("--ext");
    reveal_strlit("--record");
    reveal_strlit("--concurrency");
    reveal_strlit("--lead");
    reveal_strlit("--no-role");
    reveal_strlit("--dry-run");
    reveal_strlit("--json");
}

/// Of the words that belong to no option the first is the question and the
/// others are paths; without options, ten rows are shown, eight requests may be
/// in flight, `md` files are read, the role is asked and 2000 characters are
/// sent.
pub proof fn question_comes_first(args: Seq<Seq<char>>)
    ensures
        match words_read(
            OptsView {
                question: seq![],
                paths: seq![],
                extract: ExtractView { fields: seq![], lead: false, sections: seq![], max_chars: 2000, strip: seq![] },
                top: 10,
                show: seq![],
                ext: "md"@,
                role: true,
                record: None,
                concurrency: 8,
                dry_run: false,
                json: false,
            },
            args,
        ) {
            Ok(o) => if o.paths.len() >= 2 {
                command(args) == Ok::<OptsView, Seq<char>>(OptsView { question: o.paths[0], paths: o.paths.skip(1), ..o })
            } else {
                command(args) == Err::<OptsView, Seq<char>>("need a question and at least one path\n\n"@ + USAGE@)
            },
            Err(e) => command(args) == Err::<OptsView, Seq<char>>(e),
        },
{
}

/// Of an extension only the dots before it come off, and all of them do.
pub proof fn only_dots_come_off(v: Seq<char>)
    ensures
        ({
            let t = without_dots(v);
            &&& t.len() <= v.len()
            &&& t == v.skip(v.len() - t.len())
            &&& t.len() > 0 ==> t[0] != '.'
            &&& forall|i: int| 0 <= i < v.len() - t.len() ==> #[trigger] v[i] == '.'
        }),
    decreases v.len(),
{
    if v.len() > 0 && v[0] == '.' {
        let rest = v.drop_first();
        only_dots_come_off(rest);
        let t = without_dots(rest);
        assert(rest.skip(rest.len() - t.len()) =~= v.skip(v.len() - t.len()));
        assert forall|i: int| 0 <= i < v.len() - t.len() implies #[trigger] v[i] == '.' by {
            if i > 0 {
                assert(rest[i - 1] == v[i]);
            }
        }
    } else {
        assert(v.skip(0) =~= v);
    }
}

/// What options say is all that they hold.
pub proof fn options_are_seen_whole(o: Opts, i: int)
    ensures
        o@.question == o.question@ && o@.extract == o.extract@ && o@.top == o.top && o@.ext == o.ext@ && o@.role == o.role,
        o@.concurrency == o.concurrency && o@.dry_run == o.dry_run && o@.json == o.json,
        o@.paths.len() == o.paths@.len() && (0 <= i < o.paths@.len() ==> o@.paths[i] == o.paths@[i]@),
        o@.show.len() == o.show@.len() && (0 <= i < o.show@.len() ==> o@.show[i] == o.show@[i]@),
        match o.record {
            Some(r) => o@.record == Some(r@),
            None => o@.record is None,
        },
{
}

} // verus!
