//! Marking what was used, and reporting on it.
use vstd::prelude::*;
use vstd::string::*;

use crate::json::{
    as_entries, bool_value, copy_entries, get_member, json_entries, json_tree, member, no_entries, no_members, object_value, put_entry, JsonTree,
};
use crate::numeral::{decimal, decimal_of};
use crate::rank::options::USAGE;
use crate::rank::questions::RELEVANT;
use crate::record::{outcome_trees, with_outcome, Record, RecordView};
use crate::sorted_map::SortedMap;
use crate::sorting::views;
use crate::text::{chars_of, equal, has_prefix, lowercase, starts_with, string_of, strings};

verus! {

// ---------------------------------------------------------------------------
// Labels
// ---------------------------------------------------------------------------

/// Ids with what they are marked as.
pub open spec fn label_views(v: Seq<(String, bool)>) -> Seq<(Seq<char>, bool)> {
    v.map_values(|l: (String, bool)| (l.0@, l.1))
}

/// The words behind the file name read: `--no` and `--yes` say what the ids
/// that follow are marked as.
pub open spec fn labels_read(words: Seq<Seq<char>>) -> (Seq<(Seq<char>, bool)>, bool)
    decreases words.len(),
{
    if words.len() == 0 {
        (seq![], true)
    } else {
        let (labels, yes) = labels_read(words.drop_last());
        if words.last() == "--no"@ {
            (labels, false)
        } else if words.last() == "--yes"@ {
            (labels, true)
        } else {
            (labels.push((lowercase(words.last()), yes)), yes)
        }
    }
}

/// The file to mark in and the ids to mark, or what is wrong.
pub open spec fn mark_command(args: Seq<Seq<char>>) -> Result<(Seq<char>, Seq<(Seq<char>, bool)>), Seq<char>> {
    if args.len() == 0 {
        Err("mark needs a record file\n\n"@ + USAGE@)
    } else {
        let labels = labels_read(args.skip(1)).0;
        if labels.len() == 0 {
            Err("mark needs at least one id"@)
        } else {
            Ok((args[0], labels))
        }
    }
}

/// `mark <file> <id>... [--no <id>...] [--yes <id>...]`
pub fn parse_mark(args: &Vec<String>) -> (r: Result<(String, Vec<(String, bool)>), String>)
    ensures
        match mark_command(strings(args@)) {
            Ok((file, labels)) => r matches Ok((f, l)) && f@ == file && label_views(l@) == labels,
            Err(e) => r matches Err(m) && m@ == e,
        },
{
    let n = args.len();
    if n == 0 {
        let mut m = "mark needs a record file\n\n".to_owned();
        m.push_str(USAGE);
        return Err(m);
    }
    let ghost words = strings(args@).skip(1);
    let mut labels: Vec<(String, bool)> = Vec::new();
    let mut yes = true;
    let mut i: usize = 1;
    assert(words.take(0) =~= seq![]);
    assert(label_views(labels@) =~= seq![]);
    while i < n
        invariant
            1 <= i <= n == args@.len(),
            words == strings(args@).skip(1),
            (label_views(labels@), yes) == labels_read(words.take(i - 1)),
        decreases n - i,
    {
        assert(words.take(i as int).drop_last() =~= words.take(i - 1));
        assert(words.take(i as int).last() == args@[i as int]@);
        if equal(args[i].as_str(), "--no") {
            yes = false;
        } else if equal(args[i].as_str(), "--yes") {
            yes = true;
        } else {
            let ghost before = label_views(labels@);
            let id = args[i].as_str().to_lowercase();
            labels.push((id, yes));
            assert(label_views(labels@) =~= before.push((id@, yes)));
        }
        i += 1;
    }
    assert(words.take(n - 1) =~= words);
    if labels.len() == 0 {
        return Err("mark needs at least one id".to_owned());
    }
    Ok((args[0].clone(), labels))
}

// ---------------------------------------------------------------------------
// Ids
// ---------------------------------------------------------------------------

/// The distinct state hashes that start with `id`.
pub open spec fn hits(rs: Seq<RecordView>, id: Seq<char>) -> Set<Seq<char>>
    decreases rs.len(),
{
    if rs.len() == 0 {
        Set::empty()
    } else {
        let rest = hits(rs.drop_last(), id);
        if starts_with(rs.last().state_hash, id) {
            rest.insert(rs.last().state_hash)
        } else {
            rest
        }
    }
}

fn known(found: &Vec<String>, hash: &String) -> (r: bool)
    ensures
        r == strings(found@).contains(hash@),
{
    let n = found.len();
    let mut i: usize = 0;
    while i < n
        invariant
            i <= n == found@.len(),
            forall|j: int| 0 <= j < i ==> (#[trigger] strings(found@)[j]) != hash@,
        decreases n - i,
    {
        assert(strings(found@)[i as int] == found@[i as int]@);
        if found[i] == *hash {
            assert(strings(found@).contains(hash@));
            return true;
        }
        i += 1;
    }
    false
}

/// Resolve a short id to exactly one full state hash.
pub fn resolve_id(records: &Vec<Record>, id: &str) -> (r: Result<String, String>)
    ensures
        ({
            let found = hits(views(records@), id@);
            &&& found.finite()
            &&& match r {
                Ok(h) => found == set![h@],
                Err(m) => if found.len() == 0 {
                    m@ == "no record with id `"@ + id@ + "`"@
                } else {
                    found.len() > 1 && m@ == "id `"@ + id@ + "` matches "@ + decimal(found.len()) + " records; use more characters"@
                },
            }
        }),
{
    let ghost rs = views(records@);
    let want = chars_of(id);
    let n = records.len();
    let mut found: Vec<String> = Vec::new();
    let mut i: usize = 0;
    assert(rs.take(0) =~= seq![]);
    assert(strings(found@).to_set() =~= Set::empty());
    while i < n
        invariant
            i <= n == records@.len(),
            rs == views(records@),
            want@ == id@,
            strings(found@).no_duplicates(),
            strings(found@).to_set() == hits(rs.take(i as int), id@),
        decreases n - i,
    {
        assert(rs.take(i + 1).drop_last() =~= rs.take(i as int));
        assert(rs.take(i + 1).last() == records@[i as int]@);
        let hash = &records[i].state_hash;
        let ghost fs = strings(found@);
        if has_prefix(chars_of(hash.as_str()).as_slice(), want.as_slice()) {
            if !known(&found, hash) {
                found.push(hash.clone());
                assert(strings(found@) =~= fs.push(hash@));
                assert(fs.push(hash@).to_set() =~= fs.to_set().insert(hash@)) by {
                    broadcast use vstd::seq_lib::group_seq_properties;

                    assert forall|k: Seq<char>| fs.push(hash@).to_set().contains(k) == fs.to_set().insert(hash@).contains(k) by {
                        if fs.contains(k) {
                            let j = choose|j: int| 0 <= j < fs.len() && fs[j] == k;
                            assert(fs.push(hash@)[j] == k);
                        }
                        assert(fs.push(hash@)[fs.len() as int] == hash@);
                    }
                }
            } else {
                assert(fs.to_set().contains(hash@));
                assert(fs.to_set().insert(hash@) =~= fs.to_set());
            }
        }
        i += 1;
    }
    assert(rs.take(n as int) =~= rs);
    let ghost fs = strings(found@);
    proof {
        fs.unique_seq_to_set();
        assert(fs.to_set() == hits(rs, id@));
    }
    let m = found.len();
    if m == 1 {
        assert(fs.to_set() =~= set![fs[0]]) by {
            assert forall|k: Seq<char>| fs.to_set().contains(k) == set![fs[0]].contains(k) by {
                assert(fs[0] == found@[0]@);
                if fs.contains(k) {
                    let j = choose|j: int| 0 <= j < fs.len() && fs[j] == k;
                }
            }
        }
        return Ok(found.remove(0));
    }
    if m == 0 {
        let mut e = "no record with id `".to_owned();
        e.push_str(id);
        e.push_str("`");
        return Err(e);
    }
    let mut e = "id `".to_owned();
    e.push_str(id);
    e.push_str("` matches ");
    e.push_str(string_of(decimal_of(m as u128).as_slice()).as_str());
    e.push_str(" records; use more characters");
    Err(e)
}

// ---------------------------------------------------------------------------
// Outcomes
// ---------------------------------------------------------------------------

/// The outcome of the first record of a state.
pub open spec fn outcome_at(rs: Seq<RecordView>, hash: Seq<char>) -> Option<JsonTree>
    decreases rs.len(),
{
    if rs.len() == 0 {
        None
    } else if rs[0].state_hash == hash {
        rs[0].outcome
    } else {
        outcome_at(rs.drop_first(), hash)
    }
}

/// An outcome with a mark: what other tools attached to the same state
/// survives, where it is an object.
pub open spec fn marked_outcome(was: Option<JsonTree>, value: bool) -> JsonTree {
    match was {
        Some(JsonTree::Obj(m)) => JsonTree::Obj(m.insert(RELEVANT@, JsonTree::Bool(value))),
        _ => JsonTree::Obj(no_members().insert(RELEVANT@, JsonTree::Bool(value))),
    }
}

/// The first `k` labels turned into outcomes, or the first id that does not
/// resolve. `resolved` holds what the ids resolve to.
pub open spec fn marked(rs: Seq<RecordView>, labels: Seq<(Seq<char>, bool)>, resolved: Seq<Seq<char>>, k: nat) -> Map<Seq<char>, JsonTree>
    decreases k,
{
    if k == 0 {
        Map::empty()
    } else {
        marked(rs, labels, resolved, (k - 1) as nat).insert(
            resolved[k - 1],
            marked_outcome(outcome_at(rs, resolved[k - 1]), labels[k - 1].1),
        )
    }
}

/// `h` is the one state that an id stands for.
pub open spec fn resolves(rs: Seq<RecordView>, id: Seq<char>, h: Seq<char>) -> bool {
    hits(rs, id) == set![h]
}

fn outcome_for<'a>(records: &'a Vec<Record>, hash: &String) -> (r: Option<&'a serde_json::Value>)
    ensures
        match r {
            Some(v) => outcome_at(views(records@), hash@) == Some(json_tree(*v)),
            None => outcome_at(views(records@), hash@) is None,
        },
{
    let ghost rs = views(records@);
    let n = records.len();
    let mut i: usize = 0;
    assert(rs.skip(0) =~= rs);
    while i < n
        invariant
            i <= n == records@.len(),
            rs == views(records@),
            outcome_at(rs, hash@) == outcome_at(rs.skip(i as int), hash@),
        decreases n - i,
    {
        assert(rs.skip(i as int)[0] == records@[i as int]@);
        if records[i].state_hash == *hash {
            return match &records[i].outcome {
                Some(v) => Some(v),
                None => None,
            };
        }
        assert(rs.skip(i as int).drop_first() =~= rs.skip(i + 1));
        i += 1;
    }
    assert(rs.skip(n as int).len() == 0);
    None
}

/// An outcome with a mark.
pub fn mark_outcome(was: Option<&serde_json::Value>, value: bool) -> (r: serde_json::Value)
    ensures
        json_tree(r) == marked_outcome(
            match was {
                Some(v) => Some(json_tree(*v)),
                None => None,
            },
            value,
        ),
{
    let mut m = match was {
        Some(v) => match as_entries(v) {
            Some(e) => copy_entries(e),
            None => no_entries(),
        },
        None => no_entries(),
    };
    put_entry(&mut m, RELEVANT.to_owned(), bool_value(value));
    object_value(m)
}

/// The outcomes that labels stand for, by state hash.
pub fn mark_outcomes(records: &Vec<Record>, labels: &Vec<(String, bool)>) -> (r: Result<SortedMap<String, serde_json::Value>, String>)
    ensures
        ({
            let rs = views(records@);
            let ls = label_views(labels@);
            match r {
                Ok(m) => exists|resolved: Seq<Seq<char>>|
                    resolved.len() == ls.len() && (forall|i: int| 0 <= i < ls.len() ==> resolves(rs, ls[i].0, #[trigger] resolved[i]))
                        && outcome_trees(m@) == #[trigger] marked(rs, ls, resolved, ls.len()),
                Err(e) => exists|i: int|
                    0 <= i < ls.len() && (forall|j: int| 0 <= j < i ==> hits(rs, (#[trigger] ls[j]).0).len() == 1) && hits(
                        rs,
                        (#[trigger] ls[i]).0,
                    ).len() != 1 && e@ == (if hits(rs, ls[i].0).len() == 0 {
                        "no record with id `"@ + ls[i].0 + "`"@
                    } else {
                        "id `"@ + ls[i].0 + "` matches "@ + decimal(hits(rs, ls[i].0).len()) + " records; use more characters"@
                    }),
            }
        }),
{
    let ghost rs = views(records@);
    let ghost ls = label_views(labels@);
    let ghost mut resolved: Seq<Seq<char>> = seq![];
    let n = labels.len();
    let mut out: SortedMap<String, serde_json::Value> = SortedMap::new();
    let mut i: usize = 0;
    assert(outcome_trees(out@) =~= Map::empty());
    while i < n
        invariant
            i <= n == labels@.len(),
            n == ls.len(),
            rs == views(records@),
            ls == label_views(labels@),
            resolved.len() == i,
            forall|j: int| 0 <= j < i ==> resolves(rs, ls[j].0, #[trigger] resolved[j]),
            forall|j: int| 0 <= j < i ==> hits(rs, (#[trigger] ls[j]).0).len() == 1,
            outcome_trees(out@) == marked(rs, ls, resolved, i as nat),
        decreases n - i,
    {
        assert(ls[i as int] == (labels@[i as int].0@, labels@[i as int].1));
        match resolve_id(records, labels[i].0.as_str()) {
            Ok(hash) => {
                let ghost before = out@;
                let ghost h = hash@;
                let value = mark_outcome(outcome_for(records, &hash), labels[i].1);
                out.insert(hash, value);
                proof {
                    assert(set![h].len() == 1);
                    let more = resolved.push(h);
                    lemma_marked_prefix(rs, ls, resolved, more, i as nat);
                    resolved = more;
                    assert(outcome_trees(out@) =~= outcome_trees(before).insert(h, json_tree(value)));
                }
            },
            Err(e) => {
                assert(hits(rs, ls[i as int].0).len() != 1);
                return Err(e);
            },
        }
        i += 1;
    }
    Ok(out)
}

proof fn lemma_marked_prefix(rs: Seq<RecordView>, labels: Seq<(Seq<char>, bool)>, a: Seq<Seq<char>>, b: Seq<Seq<char>>, k: nat)
    requires
        k <= a.len(),
        k <= b.len(),
        forall|i: int| 0 <= i < k ==> #[trigger] a[i] == b[i],
    ensures
        marked(rs, labels, a, k) == marked(rs, labels, b, k),
    decreases k,
{
    if k > 0 {
        lemma_marked_prefix(rs, labels, a, b, (k - 1) as nat);
        assert(a[k - 1] == b[k - 1]);
    }
}

/// How many labels say yes.
pub open spec fn yes_count(labels: Seq<(Seq<char>, bool)>) -> nat
    decreases labels.len(),
{
    if labels.len() == 0 {
        0
    } else {
        yes_count(labels.drop_last()) + (if labels.last().1 {
            1nat
        } else {
            0nat
        })
    }
}

/// The line that says what was marked.
pub fn marked_line(labels: &Vec<(String, bool)>, updated: usize) -> (r: String)
    ensures
        ({
            let ls = label_views(labels@);
            let y = yes_count(ls);
            r@ == "marked "@ + decimal(y) + " relevant, "@ + decimal((ls.len() - y) as nat) + " not relevant ("@ + decimal(updated as nat)
                + " records updated)"@
        }),
{
    let ghost ls = label_views(labels@);
    let n = labels.len();
    let mut y: usize = 0;
    let mut i: usize = 0;
    assert(ls.take(0) =~= seq![]);
    while i < n
        invariant
            i <= n == labels@.len(),
            ls == label_views(labels@),
            y == yes_count(ls.take(i as int)),
            y <= i,
        decreases n - i,
    {
        assert(ls.take(i + 1).drop_last() =~= ls.take(i as int));
        assert(ls.take(i + 1).last() == ls[i as int]);
        if labels[i].1 {
            y += 1;
        }
        i += 1;
    }
    assert(ls.take(n as int) =~= ls);
    let mut s = "marked ".to_owned();
    s.push_str(string_of(decimal_of(y as u128).as_slice()).as_str());
    s.push_str(" relevant, ");
    s.push_str(string_of(decimal_of((n - y) as u128).as_slice()).as_str());
    s.push_str(" not relevant (");
    s.push_str(string_of(decimal_of(updated as u128).as_slice()).as_str());
    s.push_str(" records updated)");
    s
}

// ---------------------------------------------------------------------------
// Report
// ---------------------------------------------------------------------------

/// The file to report on, or what is wrong.
pub fn parse_report(args: &Vec<String>) -> (r: Result<String, String>)
    ensures
        match r {
            Ok(f) => args@.len() > 0 && f@ == args@[0]@,
            Err(e) => args@.len() == 0 && e@ == "report needs a record file\n\n"@ + USAGE@,
        },
{
    if args.len() == 0 {
        let mut m = "report needs a record file\n\n".to_owned();
        m.push_str(USAGE);
        Err(m)
    } else {
        Ok(args[0].clone())
    }
}

/// A record that says whether its document was relevant.
pub open spec fn is_labelled(r: RecordView) -> bool {
    r.outcome matches Some(o) && member(o, RELEVANT@) is Some
}

pub open spec fn labelled(rs: Seq<RecordView>) -> nat
    decreases rs.len(),
{
    if rs.len() == 0 {
        0
    } else {
        labelled(rs.drop_last()) + (if is_labelled(rs.last()) {
            1nat
        } else {
            0nat
        })
    }
}

/// How many records are labelled.
pub fn count_labelled(records: &Vec<Record>) -> (r: usize)
    ensures
        r == labelled(views(records@)),
{
    let ghost rs = views(records@);
    let len = records.len();
    let mut n: usize = 0;
    let mut i: usize = 0;
    assert(rs.take(0) =~= seq![]);
    while i < len
        invariant
            i <= len == records@.len(),
            rs == views(records@),
            n == labelled(rs.take(i as int)),
            n <= i,
        decreases len - i,
    {
        assert(rs.take(i + 1).drop_last() =~= rs.take(i as int));
        assert(rs.take(i + 1).last() == records@[i as int]@);
        match &records[i].outcome {
            Some(o) => {
                if get_member(o, RELEVANT).is_some() {
                    n += 1;
                }
            },
            None => {},
        }
        i += 1;
    }
    assert(rs.take(len as int) =~= rs);
    n
}

pub const FEW_LABELS_NOTE: &'static str = "note: under 50 labels the bins are mostly noise.";

pub const LEANING_NOTE: &'static str =
    "note: labels only on rows you chose to read lean towards high probabilities;\n      mark a few low-ranked rows as well or the report flatters the model.";

/// The lines of a report around the calibration table `table`.
pub open spec fn report_lines(records: nat, labels: nat, table: Seq<char>) -> Seq<Seq<char>> {
    let head = seq![decimal(records) + " records, "@ + decimal(labels) + " labelled"@, table];
    (if 0 < labels < 50 {
        head.push(FEW_LABELS_NOTE@)
    } else {
        head
    }).push(LEANING_NOTE@)
}

/// The lines of a report on `records`, around the calibration table `table`.
pub fn report(records: &Vec<Record>, table: &str) -> (r: Vec<String>)
    ensures
        strings(r@) == report_lines(records@.len(), labelled(views(records@)), table@),
{
    let n = count_labelled(records);
    let mut head = string_of(decimal_of(records.len() as u128).as_slice());
    head.push_str(" records, ");
    head.push_str(string_of(decimal_of(n as u128).as_slice()).as_str());
    head.push_str(" labelled");
    let mut out: Vec<String> = Vec::new();
    let ghost first = head@;
    out.push(head);
    out.push(table.to_owned());
    assert(strings(out@) =~= seq![first, table@]);
    let ghost so_far = strings(out@);
    if n > 0 && n < 50 {
        out.push(FEW_LABELS_NOTE.to_owned());
        assert(strings(out@) =~= so_far.push(FEW_LABELS_NOTE@));
    }
    let ghost so_far = strings(out@);
    out.push(LEANING_NOTE.to_owned());
    assert(strings(out@) =~= so_far.push(LEANING_NOTE@));
    out
}

// ---------------------------------------------------------------------------
// Laws
// ---------------------------------------------------------------------------

/// Marking keeps what else an outcome object says.
pub proof fn marking_keeps_other_members(m: Map<Seq<char>, JsonTree>, value: bool, key: Seq<char>)
    requires
        key != RELEVANT@,
    ensures
        member(marked_outcome(Some(JsonTree::Obj(m)), value), key) == member(JsonTree::Obj(m), key),
        member(marked_outcome(Some(JsonTree::Obj(m)), value), RELEVANT@) == Some(JsonTree::Bool(value)),
{
}

/// What is marked is what is reported: a record whose state was marked, and
/// not marked otherwise behind that, is labelled with the mark.
pub proof fn marked_state_is_labelled(
    rs: Seq<RecordView>,
    labels: Seq<(Seq<char>, bool)>,
    resolved: Seq<Seq<char>>,
    k: nat,
    i: int,
    r: RecordView,
)
    requires
        0 <= i < k,
        r.state_hash == resolved[i],
        forall|j: int| i < j < k ==> #[trigger] resolved[j] != resolved[i],
    ensures
        ({
            let x = with_outcome(r, marked(rs, labels, resolved, k));
            is_labelled(x) && member(x.outcome->0, RELEVANT@) == Some(JsonTree::Bool(labels[i].1))
        }),
    decreases k,
{
    if i < k - 1 {
        assert(resolved[k - 1] != resolved[i]);
        marked_state_is_labelled(rs, labels, resolved, (k - 1) as nat, i, r);
    }
}

/// A full state hash that is recorded is among its own hits.
pub proof fn recorded_hash_is_a_hit(rs: Seq<RecordView>, i: int)
    requires
        0 <= i < rs.len(),
    ensures
        hits(rs, rs[i].state_hash).contains(rs[i].state_hash),
    decreases rs.len(),
{
    let id = rs[i].state_hash;
    assert(starts_with(id, id)) by {
        assert(id.take(id.len() as int) =~= id);
    }
    if i < rs.len() - 1 {
        assert(rs.drop_last()[i] == rs[i]);
        recorded_hash_is_a_hit(rs.drop_last(), i);
    }
}

/// Whether a word says what the ids behind it are marked as.
pub open spec fn is_mark_flag(w: Seq<char>) -> bool {
    w == "--no"@ || w == "--yes"@
}

/// Each id is marked, in order and in lower case, as the last `--yes` or `--no`
/// before it says; as relevant where there is none. `j` is the place of that
/// flag, or -1.
pub proof fn ids_go_by_the_last_flag(words: Seq<Seq<char>>, i: int, j: int)
    requires
        0 <= i < words.len(),
        -1 <= j < i,
        j >= 0 ==> is_mark_flag(words[j]),
        forall|k: int| j < k < i ==> !is_mark_flag(#[trigger] words[k]),
    ensures
        labels_read(seq![]).0.len() == 0,
        ({
            let all = labels_read(words).0;
            let at = labels_read(words.take(i)).0.len();
            let next = labels_read(words.take(i + 1)).0.len();
            &&& is_mark_flag(words[i]) ==> next == at <= all.len()
            &&& !is_mark_flag(words[i]) ==> next == at + 1 <= all.len() && all[at as int] == (lowercase(words[i]), j < 0 || words[j] == "--yes"@)
        }),
    decreases words.len(),
{
    reveal_strlit("--no");
    reveal_strlit("--yes");
    assert("--no"@.len() == 4 && "--yes"@.len() == 5);
    assert(words.take(i + 1).drop_last() =~= words.take(i));
    assert(words.take(i + 1).last() == words[i]);
    if i == words.len() - 1 {
        assert(words.take(i + 1) =~= words);
        lemma_last_flag(words.take(i), j, words);
    } else {
        let front = words.drop_last();
        assert(front.take(i) =~= words.take(i));
        assert(front.take(i + 1) =~= words.take(i + 1));
        assert(front[i] == words[i]);
        assert forall|k: int| j < k < i implies !is_mark_flag(#[trigger] front[k]) by {
            assert(front[k] == words[k]);
        }
        ids_go_by_the_last_flag(front, i, j);
    }
}

proof fn lemma_last_flag(words: Seq<Seq<char>>, j: int, all: Seq<Seq<char>>)
    requires
        words.len() <= all.len(),
        words == all.take(words.len() as int),
        -1 <= j < words.len(),
        j >= 0 ==> is_mark_flag(all[j]),
        forall|k: int| j < k < words.len() ==> !is_mark_flag(#[trigger] all[k]),
        "--no"@ != "--yes"@,
    ensures
        labels_read(words).1 == (j < 0 || all[j] == "--yes"@),
    decreases words.len(),
{
    if words.len() > 0 {
        let last = words.len() - 1;
        assert(words.last() == all[last]);
        if j < last {
            assert(!is_mark_flag(all[last]));
            assert(words.drop_last() =~= all.take(last));
            lemma_last_flag(words.drop_last(), j, all);
        }
    }
}

/// A command to mark names the file first and then at least one id.
pub proof fn mark_command_is_complete(args: Seq<Seq<char>>)
    ensures
        args.len() == 0 ==> mark_command(args) is Err,
        args.len() > 0 && labels_read(args.skip(1)).0.len() == 0 ==> mark_command(args) == Err::<
            (Seq<char>, Seq<(Seq<char>, bool)>),
            Seq<char>,
        >("mark needs at least one id"@),
        args.len() > 0 && labels_read(args.skip(1)).0.len() > 0 ==> mark_command(args) == Ok::<(Seq<char>, Seq<(Seq<char>, bool)>), Seq<char>>(
            (args[0], labels_read(args.skip(1)).0),
        ),
{
}

/// The hits of an id are the recorded state hashes that start with it, and no
/// others.
pub proof fn hits_start_with_the_id(rs: Seq<RecordView>, id: Seq<char>, h: Seq<char>)
    ensures
        hits(rs, id).contains(h) == (h.len() >= id.len() && h.take(id.len() as int) == id && exists|i: int|
            0 <= i < rs.len() && (#[trigger] rs[i]).state_hash == h),
    decreases rs.len(),
{
    if rs.len() > 0 {
        let rest = rs.drop_last();
        let last = rs.len() - 1;
        hits_start_with_the_id(rest, id, h);
        if exists|i: int| 0 <= i < rest.len() && (#[trigger] rest[i]).state_hash == h {
            let i = choose|i: int| 0 <= i < rest.len() && (#[trigger] rest[i]).state_hash == h;
            assert(rs[i].state_hash == h);
        }
        if exists|i: int| 0 <= i < rs.len() && (#[trigger] rs[i]).state_hash == h {
            let i = choose|i: int| 0 <= i < rs.len() && (#[trigger] rs[i]).state_hash == h;
            if i < last {
                assert(rest[i].state_hash == h);
            }
        }
    }
}

/// What a state's outcome was is what its first record says.
pub proof fn outcome_is_of_first_record(rs: Seq<RecordView>, hash: Seq<char>, i: int)
    requires
        0 <= i <= rs.len(),
        forall|j: int| 0 <= j < i ==> (#[trigger] rs[j]).state_hash != hash,
        i < rs.len() ==> rs[i].state_hash == hash,
    ensures
        outcome_at(rs, hash) == (if i < rs.len() {
            rs[i].outcome
        } else {
            None
        }),
    decreases rs.len(),
{
    if i > 0 {
        let rest = rs.drop_first();
        assert(rs[0].state_hash != hash);
        assert forall|j: int| 0 <= j < i - 1 implies (#[trigger] rest[j]).state_hash != hash by {
            assert(rest[j] == rs[j + 1]);
        }
        outcome_is_of_first_record(rest, hash, i - 1);
    }
}

/// Only the states that ids resolve to are marked, each as its last label says;
/// what its outcome said besides stays.
pub proof fn only_resolved_states_are_marked(
    rs: Seq<RecordView>,
    labels: Seq<(Seq<char>, bool)>,
    resolved: Seq<Seq<char>>,
    k: nat,
    h: Seq<char>,
    i: int,
)
    requires
        -1 <= i < k <= resolved.len(),
        i >= 0 ==> resolved[i] == h,
        forall|j: int| i < j < k ==> #[trigger] resolved[j] != h,
    ensures
        marked(rs, labels, resolved, k).contains_key(h) == (i >= 0),
        i >= 0 ==> (marked(rs, labels, resolved, k)[h] matches JsonTree::Obj(m) && {
            &&& m.contains_pair("relevant"@, JsonTree::Bool(labels[i].1))
            &&& forall|key: Seq<char>| key != "relevant"@ ==> #[trigger] m.contains_key(key) == (match outcome_at(rs, h) {
                Some(JsonTree::Obj(was)) => was.contains_key(key),
                _ => false,
            })
            &&& forall|key: Seq<char>| key != "relevant"@ && #[trigger] m.contains_key(key) ==> (outcome_at(rs, h) matches Some(JsonTree::Obj(was))
                && was[key] == m[key])
        }),
    decreases k,
{
    if k > 0 && i < k - 1 {
        assert(resolved[k - 1] != h);
        only_resolved_states_are_marked(rs, labels, resolved, (k - 1) as nat, h, i);
    }
}

/// Labels that say yes are counted over all of them.
pub proof fn labels_are_counted(a: Seq<(Seq<char>, bool)>, l: (Seq<char>, bool), b: Seq<(Seq<char>, bool)>)
    ensures
        yes_count(a + b) == yes_count(a) + yes_count(b),
        yes_count(seq![l]) == (if l.1 {
            1nat
        } else {
            0nat
        }),
    decreases b.len(),
{
    let one = seq![l];
    assert(one.drop_last() =~= seq![]);
    assert(yes_count(one.drop_last()) == 0);
    if b.len() == 0 {
        assert(a + b =~= a);
    } else {
        assert((a + b).drop_last() =~= a + b.drop_last());
        labels_are_counted(a, l, b.drop_last());
    }
}

/// Records that are labelled are counted over all of them: those whose outcome
/// is an object that says something under `relevant`.
pub proof fn labelled_records_are_counted(a: Seq<RecordView>, r: RecordView, b: Seq<RecordView>)
    ensures
        labelled(a + b) == labelled(a) + labelled(b),
        labelled(seq![r]) == (match r.outcome {
            Some(JsonTree::Obj(m)) => if m.contains_key("relevant"@) {
                1nat
            } else {
                0nat
            },
            _ => 0nat,
        }),
    decreases b.len(),
{
    let one = seq![r];
    assert(one.drop_last() =~= seq![]);
    assert(labelled(one.drop_last()) == 0);
    if b.len() == 0 {
        assert(a + b =~= a);
    } else {
        assert((a + b).drop_last() =~= a + b.drop_last());
        labelled_records_are_counted(a, r, b.drop_last());
    }
}

/// A report says how many records there are and how many are labelled, shows
/// the table, warns where labels are few, and ends with the note on which rows
/// to label.
pub proof fn report_is_complete(records: nat, labels: nat, table: Seq<char>)
    ensures
        ({
            let r = report_lines(records, labels, table);
            &&& r[0] == decimal(records) + " records, "@ + decimal(labels) + " labelled"@
            &&& r[1] == table
            &&& r.len() == (if 1 <= labels <= 49 {
                4nat
            } else {
                3nat
            })
            &&& 1 <= labels <= 49 ==> r[2] == "note: under 50 labels the bins are mostly noise."@
            &&& r.last() == LEANING_NOTE@
        }),
{
}

/// What ids are marked as is seen whole, in place.
pub proof fn labels_are_seen_whole(v: Seq<(String, bool)>, i: int)
    ensures
        label_views(v).len() == v.len(),
        0 <= i < v.len() ==> label_views(v)[i] == (v[i].0@, v[i].1),
{
}

} // verus!
