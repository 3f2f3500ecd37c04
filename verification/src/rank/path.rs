//! Paths of documents, and which files of a folder are documents.
use vstd::prelude::*;
use vstd::string::*;
use vstd::utf8::encode_utf8;

use crate::order::{bytes_lt, bytes_order, compare_bytes, lemma_lex_common_prefix, lex, lex_is_strict_total, rel_of, strict_total, Rel};
use crate::sorting::{arranged, arranged_is_sorted, in_order, sort, views, weak_order, Ranked};

verus! {

// ---------------------------------------------------------------------------
// Paths
// ---------------------------------------------------------------------------

/// One component of a path.
#[derive(Debug, PartialEq, Eq, Hash)]
pub enum Part {
    Root,
    Current,
    Parent,
    Name(Vec<u8>),
}

/// What a component is.
#[verifier::ext_equal]
pub enum PartView {
    Root,
    Current,
    Parent,
    Name(Seq<u8>),
}

impl View for Part {
    type V = PartView;

    open spec fn view(&self) -> PartView {
        match self {
            Part::Root => PartView::Root,
            Part::Current => PartView::Current,
            Part::Parent => PartView::Parent,
            Part::Name(n) => PartView::Name(n@),
        }
    }
}

/// The path of a document: its components, and the text it is shown as.
#[derive(Debug)]
pub struct DocPath {
    pub shown: String,
    pub parts: Vec<Part>,
}

/// What a path is. Two paths with the same components lead to the same file.
#[verifier::ext_equal]
pub struct PathView {
    pub shown: Seq<char>,
    pub parts: Seq<PartView>,
}

impl View for DocPath {
    type V = PathView;

    open spec fn view(&self) -> PathView {
        PathView { shown: self.shown@, parts: views(self.parts@) }
    }
}

pub open spec fn part_rank(p: PartView) -> int {
    match p {
        PartView::Root => 0,
        PartView::Current => 1,
        PartView::Parent => 2,
        PartView::Name(_) => 3,
    }
}

/// The root comes first, then `.`, then `..`, then names by their bytes.
pub open spec fn part_lt() -> spec_fn(PartView, PartView) -> bool {
    |a: PartView, b: PartView|
        part_rank(a) < part_rank(b) || (a matches PartView::Name(x) && b matches PartView::Name(y) && bytes_lt()(x, y))
}

/// Paths are ordered component by component.
pub open spec fn path_lt() -> spec_fn(Seq<PartView>, Seq<PartView>) -> bool {
    lex(part_lt())
}

/// Components and paths are totally ordered.
pub proof fn path_order()
    ensures
        strict_total(part_lt()),
        strict_total(path_lt()),
{
    bytes_order();
    let lt = part_lt();
    let bl = bytes_lt();
    assert forall|a: PartView| !#[trigger] lt(a, a) by {
        if a is Name {
            assert(!bl(a->0, a->0));
        }
    }
    assert forall|a: PartView, b: PartView, c: PartView| #[trigger] lt(a, b) && #[trigger] lt(b, c) implies lt(a, c) by {
        if a is Name && b is Name && c is Name {
            assert(bl(a->0, b->0) && bl(b->0, c->0));
        }
    }
    assert forall|a: PartView, b: PartView| a == b || #[trigger] lt(a, b) || lt(b, a) by {
        if a is Name && b is Name {
            assert(a->0 == b->0 || bl(a->0, b->0) || bl(b->0, a->0));
        }
    }
    lex_is_strict_total(lt);
}

fn rank_of(p: &Part) -> (r: u8)
    ensures
        r == part_rank(p@),
{
    match p {
        Part::Root => 0,
        Part::Current => 1,
        Part::Parent => 2,
        Part::Name(_) => 3,
    }
}

fn compare_parts(a: &Part, b: &Part) -> (r: Rel)
    ensures
        rel_of(r, a@, b@, part_lt()),
{
    match a {
        Part::Name(x) => match b {
            Part::Name(y) => {
                let r = compare_bytes(x.as_slice(), y.as_slice());
                assert(rel_of(r, x@, y@, bytes_lt()));
                return r;
            },
            _ => {},
        },
        _ => {},
    }
    let i = rank_of(a);
    let j = rank_of(b);
    if i < j {
        Rel::Before
    } else if j < i {
        Rel::After
    } else {
        Rel::Same
    }
}

/// Compare two paths component by component.
pub fn compare_paths(a: &DocPath, b: &DocPath) -> (r: Rel)
    ensures
        rel_of(r, a@.parts, b@.parts, path_lt()),
{
    proof {
        path_order();
    }
    let ghost s = a@.parts;
    let ghost t = b@.parts;
    let n = if a.parts.len() < b.parts.len() {
        a.parts.len()
    } else {
        b.parts.len()
    };
    let mut i: usize = 0;
    while i < n
        invariant
            i <= n <= a.parts@.len(),
            n <= b.parts@.len(),
            n == s.len() || n == t.len(),
            s == views(a.parts@),
            t == views(b.parts@),
            s.take(i as int) == t.take(i as int),
            strict_total(part_lt()),
        decreases n - i,
    {
        let r = compare_parts(&a.parts[i], &b.parts[i]);
        proof {
            assert(s.skip(i as int)[0] == a.parts@[i as int]@);
            assert(t.skip(i as int)[0] == b.parts@[i as int]@);
            lemma_lex_common_prefix(s, t, i as int, part_lt());
            lemma_lex_common_prefix(t, s, i as int, part_lt());
        }
        match r {
            Rel::Same => {},
            other => {
                return other;
            },
        }
        assert(s.take(i + 1) =~= s.take(i as int).push(s[i as int]));
        assert(t.take(i + 1) =~= t.take(i as int).push(t[i as int]));
        i += 1;
    }
    proof {
        lemma_lex_common_prefix(s, t, n as int, part_lt());
        lemma_lex_common_prefix(t, s, n as int, part_lt());
    }
    if a.parts.len() == b.parts.len() {
        assert(s =~= s.take(n as int));
        assert(t =~= t.take(n as int));
        Rel::Same
    } else if a.parts.len() < b.parts.len() {
        Rel::Before
    } else {
        Rel::After
    }
}

impl Ranked for DocPath {
    open spec fn before() -> spec_fn(PathView, PathView) -> bool {
        |a: PathView, b: PathView| path_lt()(a.parts, b.parts)
    }

    fn comes_before(&self, other: &Self) -> (r: bool) {
        proof {
            path_order();
        }
        compare_paths(self, other) == Rel::Before
    }
}

fn copy_bytes(b: &Vec<u8>) -> (r: Vec<u8>)
    ensures
        r@ == b@,
{
    let n = b.len();
    let mut out: Vec<u8> = Vec::new();
    let mut i: usize = 0;
    while i < n
        invariant
            i <= n == b@.len(),
            out@ == b@.take(i as int),
        decreases n - i,
    {
        out.push(b[i]);
        assert(out@ =~= b@.take(i + 1));
        i += 1;
    }
    assert(b@.take(n as int) =~= b@);
    out
}

impl DocPath {
    /// The same path once more.
    pub fn copy(&self) -> (r: DocPath)
        ensures
            r@ == self@,
    {
        let n = self.parts.len();
        let mut parts: Vec<Part> = Vec::new();
        let mut i: usize = 0;
        assert(views(parts@) =~= self@.parts.take(0));
        while i < n
            invariant
                i <= n == self.parts@.len(),
                views(parts@) == self@.parts.take(i as int),
            decreases n - i,
        {
            let part = match &self.parts[i] {
                Part::Root => Part::Root,
                Part::Current => Part::Current,
                Part::Parent => Part::Parent,
                Part::Name(b) => Part::Name(copy_bytes(b)),
            };
            let ghost before = views(parts@);
            assert(part@ =~= self.parts@[i as int]@);
            parts.push(part);
            assert(views(parts@) =~= before.push(part@));
            assert(before.push(part@) =~= self@.parts.take(i + 1));
            i += 1;
        }
        assert(self@.parts.take(n as int) =~= self@.parts);
        DocPath { shown: self.shown.clone(), parts }
    }
}

// ---------------------------------------------------------------------------
// Stem and extension
// ---------------------------------------------------------------------------

/// The last `.` of a name, or -1.
pub open spec fn last_dot(name: Seq<u8>) -> int
    decreases name.len(),
{
    if name.len() == 0 {
        -1
    } else if name.last() == 46u8 {
        name.len() - 1
    } else {
        last_dot(name.drop_last())
    }
}

/// The name a path ends in; a path that ends in the root, `.` or `..` has none.
pub open spec fn file_name(parts: Seq<PartView>) -> Option<Seq<u8>> {
    if parts.len() > 0 {
        match parts.last() {
            PartView::Name(n) => Some(n),
            _ => None,
        }
    } else {
        None
    }
}

/// The name up to its last dot, unless that dot comes first.
pub open spec fn stem(name: Seq<u8>) -> Seq<u8> {
    if last_dot(name) > 0 {
        name.take(last_dot(name))
    } else {
        name
    }
}

/// What follows the last dot of a name, unless that dot comes first.
pub open spec fn extension(name: Seq<u8>) -> Option<Seq<u8>> {
    if last_dot(name) > 0 {
        Some(name.skip(last_dot(name) + 1))
    } else {
        None
    }
}

/// Bytes as text, with a replacement character for each stretch that is not UTF-8.
pub uninterp spec fn lossy(bytes: Seq<u8>) -> Seq<char>;

/// `String::from_utf8_lossy`: UTF-8 comes out as it is, anything else with
/// replacement characters.
#[verifier::external_body]
fn lossy_text(bytes: &[u8]) -> (r: String)
    ensures
        r@ == lossy(bytes@),
        forall|t: Seq<char>| bytes@ == #[trigger] encode_utf8(t) ==> r@ == t,
{
    String::from_utf8_lossy(bytes).into_owned()
}

/// The index of the last `.` of a name; its length where there is none.
fn find_last_dot(name: &[u8]) -> (r: usize)
    ensures
        r < name@.len() ==> r == last_dot(name@),
        r >= name@.len() ==> last_dot(name@) == -1,
{
    let n = name.len();
    let mut k: usize = n;
    assert(name@.take(n as int) =~= name@);
    while k > 0
        invariant
            k <= n == name@.len(),
            last_dot(name@) == last_dot(name@.take(k as int)),
        decreases k,
    {
        assert(name@.take(k as int).last() == name@[k - 1]);
        assert(name@.take(k as int).drop_last() =~= name@.take(k - 1));
        if name[k - 1] == 46 {
            return k - 1;
        }
        k -= 1;
    }
    assert(name@.take(0).len() == 0);
    n
}

/// The last dot of a name lies within it.
pub proof fn lemma_last_dot(name: Seq<u8>)
    ensures
        -1 <= last_dot(name) < name.len(),
    decreases name.len(),
{
    if name.len() > 0 && name.last() != 46u8 {
        lemma_last_dot(name.drop_last());
    }
}

impl DocPath {
    /// The stem of the name this path ends in, as text; empty where there is no name.
    pub fn stem_text(&self) -> (r: String)
        ensures
            r@ == match file_name(self@.parts) {
                Some(name) => lossy(stem(name)),
                None => seq![],
            },
            forall|t: Seq<char>| file_name(self@.parts) is Some && stem(file_name(self@.parts)->0) == #[trigger] encode_utf8(t) ==> r@ == t,
    {
        let n = self.parts.len();
        if n == 0 {
            return String::new();
        }
        assert(self@.parts.last() == self.parts@[n - 1]@);
        match &self.parts[n - 1] {
            Part::Name(name) => {
                let dot = find_last_dot(name.as_slice());
                if dot > 0 && dot < name.len() {
                    let head = &name.as_slice()[0..dot];
                    assert(head@ =~= name@.take(dot as int));
                    lossy_text(head)
                } else {
                    lossy_text(name.as_slice())
                }
            },
            _ => String::new(),
        }
    }

    /// Whether the name this path ends in has the extension `ext`.
    pub fn has_extension(&self, ext: &str) -> (r: bool)
        ensures
            r == has_ext(self@, encode_utf8(ext@)),
    {
        let n = self.parts.len();
        if n == 0 {
            return false;
        }
        assert(self@.parts.last() == self.parts@[n - 1]@);
        match &self.parts[n - 1] {
            Part::Name(name) => {
                let dot = find_last_dot(name.as_slice());
                if dot > 0 && dot < name.len() {
                    let tail = &name.as_slice()[dot + 1..name.len()];
                    assert(tail@ =~= name@.skip(dot + 1));
                    proof {
                        bytes_order();
                    }
                    let want = ext.as_bytes();
                    compare_bytes(tail, want) == Rel::Same
                } else {
                    false
                }
            },
            _ => false,
        }
    }
}

// ---------------------------------------------------------------------------
// Files
// ---------------------------------------------------------------------------

/// What lies at a path.
#[derive(Debug)]
pub enum FileTree {
    File { path: DocPath },
    Dir { entries: Vec<Entry> },
}

/// An entry of a directory, under its name.
#[derive(Debug)]
pub struct Entry {
    pub name: Vec<u8>,
    pub tree: FileTree,
}

pub open spec fn has_ext(p: PathView, ext: Seq<u8>) -> bool {
    file_name(p.parts) matches Some(name) && extension(name) == Some(ext)
}

/// Whether a name starts with a dot.
pub open spec fn hidden(name: Seq<u8>) -> bool {
    name.len() > 0 && name[0] == 46u8
}

/// Whether nothing of an entry is collected: it is a hidden directory (.git,
/// .obsidian, …).
pub open spec fn passed_over(e: Entry) -> bool {
    hidden(e.name@) && e.tree is Dir
}

/// The files with extension `ext` at and under `t`, without those in hidden
/// directories. A hidden file is a file like any other.
pub open spec fn found(t: FileTree, ext: Seq<u8>) -> Seq<PathView>
    decreases t,
{
    match t {
        FileTree::File { path } => if has_ext(path@, ext) {
            seq![path@]
        } else {
            seq![]
        },
        FileTree::Dir { entries } => found_in(entries@, ext),
    }
}

pub open spec fn found_in(entries: Seq<Entry>, ext: Seq<u8>) -> Seq<PathView>
    decreases entries,
{
    if entries.len() == 0 {
        seq![]
    } else {
        let rest = found_in(entries.drop_last(), ext);
        if passed_over(entries.last()) {
            rest
        } else {
            rest + found(entries.last().tree, ext)
        }
    }
}

/// The files of all roots, one root after the other.
pub open spec fn found_all(roots: Seq<FileTree>, ext: Seq<u8>) -> Seq<PathView>
    decreases roots.len(),
{
    if roots.len() == 0 {
        seq![]
    } else {
        found_all(roots.drop_last(), ext) + found(roots.last(), ext)
    }
}

/// The paths without those that lead where the one before leads.
pub open spec fn deduped(s: Seq<PathView>) -> Seq<PathView>
    decreases s.len(),
{
    if s.len() == 0 {
        s
    } else {
        let d = deduped(s.drop_last());
        if d.len() > 0 && d.last().parts == s.last().parts {
            d
        } else {
            d.push(s.last())
        }
    }
}

/// The files with extension `ext` under `roots`, in path order, each once.
pub open spec fn collected(roots: Seq<FileTree>, ext: Seq<u8>) -> Seq<PathView> {
    deduped(arranged(found_all(roots, ext), DocPath::before()))
}

/// Whether a name starts with a dot. A directory of such a name is not walked.
pub fn is_hidden(name: &[u8]) -> (r: bool)
    ensures
        r == hidden(name@),
{
    name.len() > 0 && name[0] == 46
}

fn walk(t: &FileTree, ext: &str, out: &mut Vec<DocPath>)
    ensures
        views(final(out)@) == views(old(out)@) + found(*t, encode_utf8(ext@)),
    decreases t,
{
    let ghost x = encode_utf8(ext@);
    let ghost s0 = views(out@);
    match t {
        FileTree::File { path } => {
            if path.has_extension(ext) {
                out.push(path.copy());
                assert(views(out@) =~= s0.push(path@));
                assert(s0.push(path@) =~= s0 + seq![path@]);
            } else {
                assert(views(out@) =~= s0 + seq![]);
            }
        },
        FileTree::Dir { entries } => {
            let n = entries.len();
            let mut i: usize = 0;
            assert(entries@.take(0) =~= seq![]);
            assert(views(out@) =~= s0 + seq![]);
            while i < n
                invariant
                    i <= n == entries@.len(),
                    x == encode_utf8(ext@),
                    *t == (FileTree::Dir { entries: *entries }),
                    views(out@) == s0 + found_in(entries@.take(i as int), x),
                decreases n - i,
            {
                assert(entries@.take(i + 1).drop_last() =~= entries@.take(i as int));
                assert(entries@.take(i + 1).last() == entries@[i as int]);
                let ghost so_far = found_in(entries@.take(i as int), x);
                if !(is_hidden(entries[i].name.as_slice()) && matches!(entries[i].tree, FileTree::Dir { .. })) {
                    assert(decreases_to!(*t => t->entries));
                    assert(decreases_to!(*entries => entries@));
                    assert(decreases_to!(entries@ => entries@[i as int]));
                    assert(decreases_to!(entries@[i as int] => entries@[i as int].tree));
                    walk(&entries[i].tree, ext, out);
                    assert(views(out@) =~= s0 + (so_far + found(entries@[i as int].tree, x)));
                }
                i += 1;
            }
            assert(entries@.take(n as int) =~= entries@);
        },
    }
}

/// Every file under `roots` with extension `ext`, sorted, deduplicated.
pub fn collect_files(roots: &Vec<FileTree>, ext: &str) -> (r: Vec<DocPath>)
    ensures
        views(r@) == collected(roots@, encode_utf8(ext@)),
{
    let ghost x = encode_utf8(ext@);
    let mut all: Vec<DocPath> = Vec::new();
    let n = roots.len();
    let mut i: usize = 0;
    assert(roots@.take(0) =~= seq![]);
    assert(views(all@) =~= seq![]);
    while i < n
        invariant
            i <= n == roots@.len(),
            x == encode_utf8(ext@),
            views(all@) == found_all(roots@.take(i as int), x),
        decreases n - i,
    {
        assert(roots@.take(i + 1).drop_last() =~= roots@.take(i as int));
        assert(roots@.take(i + 1).last() == roots@[i as int]);
        walk(&roots[i], ext, &mut all);
        i += 1;
    }
    assert(roots@.take(n as int) =~= roots@);
    sort(&mut all);
    let ghost s = views(all@);
    let m = all.len();
    let mut out: Vec<DocPath> = Vec::new();
    let mut k: usize = 0;
    assert(s.take(0) =~= seq![]);
    assert(views(out@) =~= seq![]);
    while k < m
        invariant
            k <= m == all@.len(),
            s == views(all@),
            views(out@) == deduped(s.take(k as int)),
        decreases m - k,
    {
        assert(s.take(k + 1).drop_last() =~= s.take(k as int));
        assert(s.take(k + 1).last() == all@[k as int]@);
        proof {
            path_order();
        }
        let repeated = if out.len() > 0 {
            assert(views(out@).last() == out@[out@.len() - 1]@);
            compare_paths(&out[out.len() - 1], &all[k]) == Rel::Same
        } else {
            false
        };
        if !repeated {
            let ghost before = views(out@);
            out.push(all[k].copy());
            assert(views(out@) =~= before.push(s[k as int]));
        }
        k += 1;
    }
    assert(s.take(m as int) =~= s);
    out
}

// ---------------------------------------------------------------------------
// Laws
// ---------------------------------------------------------------------------

proof fn lemma_paths_ranked()
    ensures
        weak_order(DocPath::before()),
{
    path_order();
    let lt = path_lt();
    let before = DocPath::before();
    assert forall|a: PathView, b: PathView, c: PathView| !#[trigger] before(a, b) && !#[trigger] before(b, c) implies !before(a, c) by {
        assert(a.parts == b.parts || lt(a.parts, b.parts) || lt(b.parts, a.parts));
        assert(b.parts == c.parts || lt(b.parts, c.parts) || lt(c.parts, b.parts));
    }
}

/// Each path comes before those to its right.
pub open spec fn rising_paths(s: Seq<PathView>) -> bool {
    forall|i: int, j: int| 0 <= i < j < s.len() ==> DocPath::before()(#[trigger] s[i], #[trigger] s[j])
}

/// Some path of `s` leads where `p` leads.
pub open spec fn leads_to(s: Seq<PathView>, p: PathView) -> bool {
    exists|i: int| 0 <= i < s.len() && (#[trigger] s[i]).parts == p.parts
}

proof fn lemma_deduped_rises(s: Seq<PathView>)
    requires
        in_order(s, DocPath::before()),
    ensures
        s.len() > 0 ==> deduped(s).len() > 0 && deduped(s).last().parts == s.last().parts,
        rising_paths(deduped(s)),
    decreases s.len(),
{
    if s.len() > 0 {
        path_order();
        let lt = path_lt();
        let t = s.drop_last();
        let d = deduped(t);
        let r = deduped(s);
        assert(in_order(t, DocPath::before()));
        lemma_deduped_rises(t);
        if r.len() > d.len() && d.len() > 0 {
            assert(!DocPath::before()(s[s.len() - 1], s[s.len() - 2]));
            assert(t.last() == s[s.len() - 2]);
            assert(lt(d.last().parts, s.last().parts));
            assert forall|i: int, j: int| 0 <= i < j < r.len() implies DocPath::before()(#[trigger] r[i], #[trigger] r[j]) by {
                if j == d.len() && i < d.len() - 1 {
                    assert(DocPath::before()(d[i], d[d.len() - 1]));
                    assert(lt(d[i].parts, d.last().parts));
                }
            }
        }
    }
}

proof fn lemma_deduped_from(s: Seq<PathView>, i: int)
    requires
        0 <= i < deduped(s).len(),
    ensures
        s.contains(deduped(s)[i]),
    decreases s.len(),
{
    let t = s.drop_last();
    if i < deduped(t).len() {
        lemma_deduped_from(t, i);
        let k = choose|k: int| 0 <= k < t.len() && t[k] == deduped(t)[i];
        assert(s[k] == deduped(s)[i]);
    } else {
        assert(s[s.len() - 1] == deduped(s)[i]);
    }
}

proof fn lemma_deduped_covers(s: Seq<PathView>, k: int)
    requires
        0 <= k < s.len(),
    ensures
        leads_to(deduped(s), s[k]),
    decreases s.len(),
{
    let t = s.drop_last();
    let r = deduped(s);
    if k < t.len() {
        lemma_deduped_covers(t, k);
        let i = choose|i: int| 0 <= i < deduped(t).len() && (#[trigger] deduped(t)[i]).parts == t[k].parts;
        assert(r[i].parts == s[k].parts);
    } else {
        assert(r[r.len() - 1].parts == s[k].parts);
    }
}

/// The collected files stand in strict path order, so none stands twice; each
/// was found under a root, and each file found is among them.
pub proof fn collected_in_order(roots: Seq<FileTree>, ext: Seq<u8>)
    ensures
        rising_paths(collected(roots, ext)),
        forall|i: int| 0 <= i < collected(roots, ext).len() ==> found_all(roots, ext).contains(#[trigger] collected(roots, ext)[i]),
        forall|p: PathView| #[trigger] found_all(roots, ext).contains(p) ==> leads_to(collected(roots, ext), p),
{
    broadcast use vstd::seq_lib::group_to_multiset_ensures;

    lemma_paths_ranked();
    let all = found_all(roots, ext);
    let s = arranged(all, DocPath::before());
    let r = collected(roots, ext);
    arranged_is_sorted(all, DocPath::before());
    lemma_deduped_rises(s);
    assert forall|i: int| 0 <= i < r.len() implies all.contains(#[trigger] r[i]) by {
        lemma_deduped_from(s, i);
        assert(s.to_multiset().count(r[i]) > 0);
    }
    assert forall|p: PathView| #[trigger] all.contains(p) implies leads_to(r, p) by {
        assert(all.to_multiset().count(p) > 0);
        assert(s.contains(p));
        let k = choose|k: int| 0 <= k < s.len() && s[k] == p;
        lemma_deduped_covers(s, k);
    }
}

/// Whether a file is found in one of the entries that are not passed over.
pub open spec fn found_in_some(entries: Seq<Entry>, ext: Seq<u8>, p: PathView) -> bool {
    exists|i: int| 0 <= i < entries.len() && !passed_over(#[trigger] entries[i]) && found(entries[i].tree, ext).contains(p)
}

/// What is found in a directory is what is found in its entries, hidden
/// directories left out. A file with the extension is found whatever its name
/// starts with.
pub proof fn only_hidden_directories_are_left_out(entries: Seq<Entry>, ext: Seq<u8>)
    ensures
        forall|p: PathView| #[trigger] found_in(entries, ext).contains(p) == found_in_some(entries, ext, p),
        forall|i: int|
            0 <= i < entries.len() ==> ((#[trigger] entries[i]).tree matches FileTree::File { path } ==> (has_ext(path@, ext) ==> found_in(
                entries,
                ext,
            ).contains(path@))),
    decreases entries.len(),
{
    if entries.len() > 0 {
        let rest = entries.drop_last();
        let last = entries.len() - 1;
        let here = found(entries[last].tree, ext);
        only_hidden_directories_are_left_out(rest, ext);
        assert forall|p: PathView| #[trigger] found_in(entries, ext).contains(p) == found_in_some(entries, ext, p) by {
            assert(found_in(rest, ext).contains(p) == found_in_some(rest, ext, p));
            if found_in(rest, ext).contains(p) {
                let i = choose|i: int| 0 <= i < rest.len() && !passed_over(#[trigger] rest[i]) && found(rest[i].tree, ext).contains(p);
                assert(!passed_over(entries[i]));
                let k = choose|k: int| 0 <= k < found_in(rest, ext).len() && found_in(rest, ext)[k] == p;
                assert(found_in(entries, ext)[k] == p);
            }
            if !passed_over(entries[last]) && here.contains(p) {
                let k = choose|k: int| 0 <= k < here.len() && here[k] == p;
                assert(found_in(entries, ext)[found_in(rest, ext).len() + k] == p);
            }
            if found_in(entries, ext).contains(p) && !found_in(rest, ext).contains(p) {
                let k = choose|k: int| 0 <= k < found_in(entries, ext).len() && found_in(entries, ext)[k] == p;
                assert(k >= found_in(rest, ext).len()) by {
                    if k < found_in(rest, ext).len() {
                        assert(found_in(rest, ext)[k] == p);
                    }
                }
                assert(here[k - found_in(rest, ext).len()] == p);
                assert(!passed_over(entries[last]));
            }
            if found_in_some(entries, ext, p) {
                let i = choose|i: int| 0 <= i < entries.len() && !passed_over(#[trigger] entries[i]) && found(entries[i].tree, ext).contains(p);
                if i < last {
                    assert(!passed_over(rest[i]));
                }
            }
        }
    } else {
        assert(found_in(entries, ext) =~= seq![]);
    }
    assert forall|i: int| 0 <= i < entries.len() implies ((#[trigger] entries[i]).tree matches FileTree::File { path } ==> (has_ext(path@, ext)
        ==> found_in(entries, ext).contains(path@))) by {
        if let FileTree::File { path } = entries[i].tree {
            if has_ext(path@, ext) {
                assert(found(entries[i].tree, ext)[0] == path@);
                assert(!passed_over(entries[i]));
                assert(found_in_some(entries, ext, path@));
            }
        }
    }
}

/// Every path has the extension.
pub open spec fn all_have_ext(s: Seq<PathView>, ext: Seq<u8>) -> bool {
    forall|i: int| 0 <= i < s.len() ==> has_ext(#[trigger] s[i], ext)
}

proof fn lemma_found_have_ext(t: FileTree, ext: Seq<u8>)
    ensures
        all_have_ext(found(t, ext), ext),
    decreases t,
{
    reveal_with_fuel(found, 2);
    match t {
        FileTree::Dir { entries } => {
            lemma_found_in_have_ext(entries@, ext);
        },
        _ => {},
    }
}

proof fn lemma_found_in_have_ext(entries: Seq<Entry>, ext: Seq<u8>)
    ensures
        all_have_ext(found_in(entries, ext), ext),
    decreases entries,
{
    reveal_with_fuel(found_in, 2);
    if entries.len() > 0 {
        lemma_found_in_have_ext(entries.drop_last(), ext);
        lemma_found_have_ext(entries.last().tree, ext);
    }
}

/// Every file found has the extension asked for.
pub proof fn found_have_ext(roots: Seq<FileTree>, ext: Seq<u8>)
    ensures
        all_have_ext(found_all(roots, ext), ext),
    decreases roots.len(),
{
    if roots.len() > 0 {
        found_have_ext(roots.drop_last(), ext);
        lemma_found_have_ext(roots.last(), ext);
    }
}

/// A name is cut at its last dot: the stem is what stands before it, the
/// extension what stands behind it. A name without a dot, or whose only dot
/// comes first, is all stem.
pub proof fn names_are_cut_at_the_last_dot(head: Seq<u8>, tail: Seq<u8>)
    requires
        !tail.contains(46u8),
    ensures
        head.len() > 0 ==> stem(head + seq![46u8] + tail) == head,
        head.len() > 0 ==> extension(head + seq![46u8] + tail) == Some(tail),
        stem(seq![46u8] + tail) == seq![46u8] + tail,
        extension(seq![46u8] + tail) is None,
        stem(tail) == tail,
        extension(tail) is None,
{
    lemma_last_dot_is(head, tail);
    lemma_last_dot_is(seq![], tail);
    let none: Seq<u8> = seq![];
    assert(none + seq![46u8] + tail =~= seq![46u8] + tail);
    let name = head + seq![46u8] + tail;
    assert(name.take(head.len() as int) =~= head);
    assert(name.skip(head.len() as int + 1) =~= tail);
    lemma_no_dot(tail);
}

proof fn lemma_no_dot(name: Seq<u8>)
    requires
        !name.contains(46u8),
    ensures
        last_dot(name) == -1,
    decreases name.len(),
{
    if name.len() > 0 {
        assert(name.contains(name[name.len() - 1]));
        assert(!name.drop_last().contains(46u8)) by {
            if name.drop_last().contains(46u8) {
                let i = choose|i: int| 0 <= i < name.drop_last().len() && name.drop_last()[i] == 46u8;
                assert(name[i] == 46u8);
            }
        }
        lemma_no_dot(name.drop_last());
    }
}

proof fn lemma_last_dot_is(head: Seq<u8>, tail: Seq<u8>)
    requires
        !tail.contains(46u8),
    ensures
        last_dot(head + seq![46u8] + tail) == head.len(),
    decreases tail.len(),
{
    let name = head + seq![46u8] + tail;
    if tail.len() > 0 {
        assert(tail.contains(tail[tail.len() - 1]));
        assert(name.drop_last() =~= head + seq![46u8] + tail.drop_last());
        assert(!tail.drop_last().contains(46u8)) by {
            if tail.drop_last().contains(46u8) {
                let i = choose|i: int| 0 <= i < tail.drop_last().len() && tail.drop_last()[i] == 46u8;
                assert(tail[i] == 46u8);
            }
        }
        lemma_last_dot_is(head, tail.drop_last());
    }
}

/// Paths go by their first component that differs: the root comes first, then
/// `.`, then `..`, then names by their bytes; a path comes before those that
/// lead on from it.
pub proof fn paths_go_by_component(common: Seq<PartView>, a: PartView, x: Seq<PartView>, b: PartView, y: Seq<PartView>)
    ensures
        path_lt()(common, common + seq![b] + y),
        !path_lt()(common + seq![b] + y, common),
        a == b || path_lt()(common + seq![a] + x, common + seq![b] + y) == (match (a, b) {
            (PartView::Name(m), PartView::Name(n)) => bytes_lt()(m, n),
            (PartView::Root, _) => true,
            (_, PartView::Root) => false,
            (PartView::Current, _) => true,
            (_, PartView::Current) => false,
            (PartView::Parent, _) => true,
            (_, PartView::Parent) => false,
        }),
{
    path_order();
    let lt = part_lt();
    let p = common + seq![a] + x;
    let q = common + seq![b] + y;
    let k = common.len() as int;
    assert(p.take(k) =~= common);
    assert(q.take(k) =~= common);
    assert(common.take(k) =~= common);
    lemma_lex_common_prefix(p, q, k, lt);
    lemma_lex_common_prefix(common, q, k, lt);
    lemma_lex_common_prefix(q, common, k, lt);
    assert(p.skip(k)[0] == a && q.skip(k)[0] == b);
    assert(common.skip(k).len() == 0);
}

/// A file has an extension where the name its path ends in has it.
pub proof fn extensions_go_by_name(p: PathView, ext: Seq<u8>)
    ensures
        has_ext(p, ext) == (p.parts.len() > 0 && (p.parts.last() matches PartView::Name(n) && extension(n) == Some(ext))),
        hidden(ext) == (ext.len() > 0 && ext[0] == 46u8),
{
}

/// Files are found root by root, and in a directory entry by entry, each where
/// it stands: a file itself where it has the extension.
pub proof fn files_are_found_in_order(a: Seq<FileTree>, t: FileTree, b: Seq<FileTree>, ext: Seq<u8>)
    ensures
        found_all(a + b, ext) == found_all(a, ext) + found_all(b, ext),
        found_all(seq![t], ext) == found(t, ext),
        t matches FileTree::File { path } ==> found(t, ext) == (if has_ext(path@, ext) {
            seq![path@]
        } else {
            Seq::<PathView>::empty()
        }),
        t matches FileTree::Dir { entries } ==> found(t, ext) == found_in(entries@, ext),
    decreases b.len(),
{
    let one = seq![t];
    assert(one.drop_last() =~= seq![]);
    assert(found_all(one.drop_last(), ext) =~= seq![]);
    assert(found_all(one, ext) =~= found(t, ext));
    if b.len() == 0 {
        assert(a + b =~= a);
        assert(found_all(a, ext) + found_all(b, ext) =~= found_all(a, ext));
    } else {
        assert((a + b).drop_last() =~= a + b.drop_last());
        files_are_found_in_order(a, t, b.drop_last(), ext);
        assert(found_all(a + b, ext) =~= found_all(a, ext) + found_all(b, ext));
    }
}

/// What is collected stands in the order of the paths: of two, the one whose
/// path comes first stands first.
pub proof fn collected_by_path(roots: Seq<FileTree>, ext: Seq<u8>, i: int, j: int)
    requires
        0 <= i < j < collected(roots, ext).len(),
    ensures
        path_lt()(collected(roots, ext)[i].parts, collected(roots, ext)[j].parts),
{
    collected_in_order(roots, ext);
    assert(DocPath::before()(collected(roots, ext)[i], collected(roots, ext)[j]));
}

/// What a path says is all that it holds, component by component.
pub proof fn paths_are_seen_whole(p: DocPath, name: Vec<u8>, i: int)
    ensures
        p@.shown == p.shown@,
        p@.parts.len() == p.parts@.len() && (0 <= i < p.parts@.len() ==> p@.parts[i] == p.parts@[i]@),
        Part::Root@ is Root && Part::Current@ is Current && Part::Parent@ is Parent && Part::Name(name)@ == PartView::Name(name@),
{
}

} // verus!
