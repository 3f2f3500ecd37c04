//! Documents: front matter, extraction, paths.
use serde_json::Value;
use system_one::rank::doc::{Doc, Extract};
use system_one::rank::front_matter::{find_closing_fence, parse_scalar_or_list, split_front_matter, split_top_level_commas, unquote};
use system_one::rank::markdown::{heading_level, lead, sections, squeeze_blank_lines, truncate_chars};
use system_one::rank::path::{collect_files, is_hidden, DocPath, Entry, FileTree, Part};
use system_one::rank::pattern::Pattern;

const NOTE: &str = "---\n\
title: \"Queue-reactive models\"\n\
tags: [lob, queue, 'hawkes, marked']\n\
year: 2015\n\
authors:\n  - Huang\n  - Lehalle\n\
nested:\n  a: 1\n\
---\n\
# Queue-reactive\n\
\n\
> Lead paragraph about queues.\n\
\n\
## Background\n\
Old stuff.\n\
\n\
## Key contribution\n\
New model.[^me-1]\n\
### Detail\n\
Sub detail.\n\
## Methodology\n\
Maths.\n\
\n\
[^me-1]: my private thought <!-- user-note 2026-06-14 -->\n";

fn path(s: &str) -> DocPath {
    let parts = s.split('/').map(|p| Part::Name(p.as_bytes().to_vec())).collect();
    DocPath { shown: s.to_string(), parts }
}

fn doc() -> Doc {
    Doc::parse(path("notes/huang2015queue.md"), NOTE)
}

fn chars(s: &str) -> Vec<char> {
    s.chars().collect()
}

fn string(cs: &[char]) -> String {
    cs.iter().collect()
}

#[test]
fn front_matter_scalars_lists_and_nested() {
    let d = doc();
    assert_eq!(d.fields["title"], "Queue-reactive models");
    assert_eq!(d.fields["year"], "2015");
    assert_eq!(d.fields["tags"], Value::from(vec!["lob", "queue", "hawkes, marked"]));
    assert_eq!(d.fields["authors"], Value::from(vec!["Huang", "Lehalle"]));
    assert_eq!(d.fields["nested"], "a: 1", "nested YAML is kept as raw text, not dropped");
    assert!(d.body.starts_with("# Queue-reactive"));
}

#[test]
fn no_front_matter_is_all_body() {
    let d = Doc::parse(path("x/plain.md"), "just text\n");
    assert!(d.fields.is_empty());
    assert_eq!(d.body, "just text\n");
    assert_eq!(d.title(), "plain", "falls back to the file stem");
}

#[test]
fn title_falls_back_to_first_h1() {
    let d = Doc::parse(path("a.md"), "---\nyear: 1\n---\n# From heading\nbody");
    assert_eq!(d.title(), "From heading");
}

#[test]
fn lead_and_sections() {
    let ex = Extract { lead: true, sections: vec!["key contribution".to_string()], ..Extract::default() };
    let t = doc().text(&ex);
    assert!(t.contains("Lead paragraph"));
    assert!(t.contains("## Key contribution") && t.contains("Sub detail"), "subsections stay");
    assert!(!t.contains("Old stuff") && !t.contains("Maths"));
    assert_eq!(t, "> Lead paragraph about queues.\n\n## Key contribution\nNew model.[^me-1]\n### Detail\nSub detail.");
}

#[test]
fn strip_runs_before_selection() {
    let ex = Extract {
        strip: vec![
            Pattern::new(r"(?m)^\[\^me-[^\]]*\]:.*$").unwrap(),
            Pattern::new(r"\[\^me-[^\]]*\]").unwrap(),
        ],
        ..Extract::default()
    };
    let t = doc().text(&ex);
    assert!(!t.contains("me-1") && !t.contains("private thought"));
    assert!(t.contains("New model."));
}

#[test]
fn field_selection_and_zero_body() {
    let ex = Extract { fields: vec!["tags".to_string()], max_chars: 0, ..Extract::default() };
    let s = doc().to_state(&ex);
    assert_eq!(s["title"], "Queue-reactive models");
    assert!(s["fields"].get("tags").is_some() && s["fields"].get("year").is_none());
    assert!(s.get("text").is_none(), "max_chars 0 sends no body");
}

#[test]
fn truncation_counts_chars_not_bytes() {
    assert_eq!(truncate_chars("队列反应模型", 2), "队列…");
    assert_eq!(truncate_chars("short", 10), "short");
}

#[test]
fn truncation_drops_the_space_before_the_cut() {
    assert_eq!(truncate_chars("ab  cd", 4), "ab…");
    assert_eq!(truncate_chars("abcd", 4), "abcd");
    assert_eq!(truncate_chars("abcd", 0), "…");
}

#[test]
fn fences_may_carry_carriage_returns_and_spaces() {
    let (fields, body) = split_front_matter("---\r\na: 1\r\n--- \r\nrest");
    assert_eq!(fields["a"], "1");
    assert_eq!(body, "rest");
    let unclosed = "---\na: 1\nno end";
    let (fields, body) = split_front_matter(unclosed);
    assert!(fields.is_empty());
    assert_eq!(body, unclosed);
    assert_eq!(find_closing_fence(&chars("a: 1\n---\nx")), Some((5, 9)));
    assert_eq!(find_closing_fence(&chars("a: 1\n----\nx")), None);
    assert_eq!(find_closing_fence(&chars("---")), Some((0, 3)));
}

#[test]
fn keys_are_single_words() {
    let (fields, _) = split_front_matter("---\ntwo words: x\nkey: y\n : z\n  indented: v\n---\n");
    assert_eq!(fields.len(), 1);
    assert_eq!(fields["key"], "y\n: z\nindented: v", "what is nested under a key is kept");
    // A blank line inside a block is passed over; the block ends at the next key.
    let (fields, _) = split_front_matter("---\nlist:\n- a\n\n- 'b'\nnext: [ ]\nempty:\n---\n");
    assert_eq!(fields["list"], Value::from(vec!["a", "b"]));
    assert_eq!(fields["next"], Value::Array(vec![]));
    assert_eq!(fields["empty"], "");
}

#[test]
fn nested_front_matter_is_kept_as_raw_text() {
    let (fields, body) = split_front_matter("---\nsummary: >\n  long text\n\n  more: of it\nyear: 2015\n---\nbody\n");
    assert_eq!(fields["summary"], ">\nlong text\nmore: of it");
    assert_eq!(fields["year"], "2015");
    assert_eq!(body, "body\n");
    // A list behind the colon with lines under it is no longer a list.
    let (fields, _) = split_front_matter("---\ntags: [a]\n  - b\nnot a key\n---\n");
    assert_eq!(fields["tags"], "[a]\n- b");
    let (fields, _) = split_front_matter("---\ntags:\n  - a\n  - \"b\"\n---\n");
    assert_eq!(fields["tags"], Value::from(vec!["a", "b"]));
}

#[test]
fn quotes_and_lists() {
    assert_eq!(string(&unquote(&chars(" 'a' "))), "a");
    assert_eq!(string(&unquote(&chars("\"a'"))), "\"a'");
    assert_eq!(string(&unquote(&chars("\""))), "\"");
    assert_eq!(string(&unquote(&chars("''"))), "");
    let parts: Vec<String> = split_top_level_commas(&chars("a,\"b,c\",d'e,f'")).iter().map(|p| string(p)).collect();
    assert_eq!(parts, ["a", "\"b,c\"", "d'e,f'"]);
    assert_eq!(parse_scalar_or_list(&chars("[a, , 'b']")), Value::from(vec!["a", "b"]));
    assert_eq!(parse_scalar_or_list(&chars("[a")), "[a");
    assert_eq!(parse_scalar_or_list(&chars("[")), "[");
}

#[test]
fn headings_need_a_space() {
    assert_eq!(heading_level(&chars("## x")), Some(2));
    assert_eq!(heading_level(&chars("##x")), None);
    assert_eq!(heading_level(&chars("#")), None);
    assert_eq!(heading_level(&chars("x # y")), None);
}

#[test]
fn lead_without_h1_is_everything_before_the_first_heading() {
    assert_eq!(string(&lead(&chars("intro\n\n## A\ntext"))), "intro");
    assert_eq!(string(&lead(&chars("skip\n## A\nskip\n# T\nkeep\n## B\nskip"))), "keep");
    assert_eq!(string(&lead(&chars("## A\ntext"))), "");
}

#[test]
fn sections_end_at_their_own_level() {
    let body = "# A x\n1\n## B\n2\n# C\n3\n# A y\n4";
    let all: Vec<String> = sections(&chars(body), &vec!["a ".to_string()]).iter().map(|p| string(p)).collect();
    assert_eq!(all, ["# A x\n1\n## B\n2", "# A y\n4"]);
    assert!(sections(&chars(body), &vec![]).is_empty());
    // A section that opens where another closes is found as well.
    let two: Vec<String> = sections(&chars("# A\n1\n# B\n2"), &vec!["A".to_string(), "b".to_string()]).iter().map(|p| string(p)).collect();
    assert_eq!(two, ["# A\n1", "# B\n2"]);
}

#[test]
fn blank_lines_are_squeezed() {
    assert_eq!(string(&squeeze_blank_lines(&chars("\n\na  \n\n \n\nb\n"))), "a\n\nb");
    assert_eq!(string(&squeeze_blank_lines(&chars(""))), "");
    // Only the first line loses the white space before it.
    let squeezed = string(&squeeze_blank_lines(&chars(" \n  a\t\r\n  b\n\n\n\n  c \n \n")));
    assert_eq!(squeezed, "a\n  b\n\n  c");
    assert_eq!(string(&squeeze_blank_lines(&chars(&squeezed))), squeezed, "squeezing again changes nothing");
}

#[test]
fn empty_lead_is_left_out() {
    let d = Doc::parse(path("a.md"), "# T\n## B\nbee");
    let ex = Extract { lead: true, sections: vec!["b".to_string()], ..Extract::default() };
    assert_eq!(d.text(&ex), "## B\nbee");
    let ex = Extract { lead: true, ..Extract::default() };
    assert_eq!(d.text(&ex), "");
    assert!(d.to_state(&ex).get("text").is_none());
}

#[test]
fn fields_as_text() {
    let d = doc();
    assert_eq!(d.field_text("tags").as_deref(), Some("lob, queue, hawkes, marked"));
    assert_eq!(d.field_text("year").as_deref(), Some("2015"));
    assert_eq!(d.field_text("nothing"), None);
    let mut odd = doc();
    odd.fields.insert("n".to_string(), Value::from(vec![Value::from(1u64), Value::Null]));
    odd.fields.insert("t".to_string(), Value::Bool(true));
    assert_eq!(odd.field_text("n").as_deref(), Some("1, null"));
    assert_eq!(odd.field_text("t").as_deref(), Some("true"));
}

#[test]
fn every_field_but_the_title_is_sent_by_default() {
    let s = doc().to_state(&Extract::default());
    assert!(s["fields"].get("title").is_none());
    assert_eq!(s["fields"].as_object().unwrap().len(), 4);
    let bare = Doc::parse(path("a.md"), "# T").to_state(&Extract::default());
    assert!(bare.get("fields").is_none());
    assert_eq!(bare["text"], "# T");
    // An empty title falls through to the heading.
    assert_eq!(Doc::parse(path("a.md"), "---\ntitle: ''\n---\n# H").title(), "H");
}

#[test]
fn patterns_that_do_not_compile_are_refused() {
    assert!(Pattern::new("(").is_err());
    assert!(Pattern::new("(").unwrap_err().contains("unclosed group"));
    assert_eq!(Pattern::new("b+").unwrap().delete_from("abba"), "aa");
}

fn file(p: &str) -> FileTree {
    FileTree::File { path: path(p) }
}

fn entry(name: &str, tree: FileTree) -> Entry {
    Entry { name: name.as_bytes().to_vec(), tree }
}

#[test]
fn files_are_collected_in_order_once() {
    let tree = FileTree::Dir {
        entries: vec![
            entry("b.md", file("r/b.md")),
            entry("a", FileTree::Dir { entries: vec![entry("z.md", file("r/a/z.md")), entry("z.txt", file("r/a/z.txt"))] }),
            entry(".git", FileTree::Dir { entries: vec![entry("c.md", file("r/.git/c.md"))] }),
            entry(".md", file("r/.md")),
            entry("md", file("r/md")),
        ],
    };
    let roots = vec![tree, file("r/b.md"), file("a.b/x.md"), file("a/x.md")];
    let shown: Vec<String> = collect_files(&roots, "md").into_iter().map(|p| p.shown).collect();
    // Components are compared one by one: `a` comes before `a.b`.
    assert_eq!(shown, ["a/x.md", "a.b/x.md", "r/a/z.md", "r/b.md"]);
    let drafts = FileTree::Dir { entries: vec![entry(".draft.md", file("r/.draft.md"))] };
    let found: Vec<String> = collect_files(&vec![drafts], "md").into_iter().map(|p| p.shown).collect();
    assert_eq!(found, ["r/.draft.md"], "a hidden file is a file");
    assert!(is_hidden(b".git"));
    assert!(!is_hidden(b"git"));
}

#[test]
fn stems_and_extensions() {
    assert_eq!(path("x/a.b.md").stem_text(), "a.b");
    assert_eq!(path("x/.hidden").stem_text(), ".hidden");
    assert_eq!(path("x/noext").stem_text(), "noext");
    assert!(path("x/a.b.md").has_extension("md"));
    assert!(!path("x/.md").has_extension("md"));
    let up = DocPath { shown: "..".to_string(), parts: vec![Part::Parent] };
    assert_eq!(up.stem_text(), "");
    let odd = DocPath { shown: "?".to_string(), parts: vec![Part::Name(vec![0x61, 0xff])] };
    assert_eq!(odd.stem_text(), "a\u{fffd}");
}
