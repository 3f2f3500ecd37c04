//! Strict total orders and the lexicographic order they induce on sequences.
use vstd::prelude::*;

verus! {

/// `lt` is irreflexive, transitive and decides any two distinct values.
pub open spec fn strict_total<T>(lt: spec_fn(T, T) -> bool) -> bool {
    &&& forall|a: T| !#[trigger] lt(a, a)
    &&& forall|a: T, b: T, c: T| #[trigger] lt(a, b) && #[trigger] lt(b, c) ==> lt(a, c)
    &&& forall|a: T, b: T| a == b || #[trigger] lt(a, b) || lt(b, a)
}

/// Dictionary order: a proper prefix comes first, else the first difference decides.
pub open spec fn lex_lt<T>(a: Seq<T>, b: Seq<T>, lt: spec_fn(T, T) -> bool) -> bool
    decreases a.len(),
{
    if b.len() == 0 {
        false
    } else if a.len() == 0 {
        true
    } else {
        lt(a[0], b[0]) || (a[0] == b[0] && lex_lt(a.drop_first(), b.drop_first(), lt))
    }
}

/// The dictionary order over `lt` as a relation.
pub open spec fn lex<T>(lt: spec_fn(T, T) -> bool) -> spec_fn(Seq<T>, Seq<T>) -> bool {
    |a: Seq<T>, b: Seq<T>| lex_lt(a, b, lt)
}

proof fn lemma_lex_irreflexive<T>(a: Seq<T>, lt: spec_fn(T, T) -> bool)
    requires
        strict_total(lt),
    ensures
        !lex_lt(a, a, lt),
    decreases a.len(),
{
    if a.len() > 0 {
        assert(!lt(a[0], a[0]));
        lemma_lex_irreflexive(a.drop_first(), lt);
    }
}

proof fn lemma_lex_transitive<T>(a: Seq<T>, b: Seq<T>, c: Seq<T>, lt: spec_fn(T, T) -> bool)
    requires
        strict_total(lt),
        lex_lt(a, b, lt),
        lex_lt(b, c, lt),
    ensures
        lex_lt(a, c, lt),
    decreases a.len(),
{
    if a.len() > 0 {
        if lt(a[0], b[0]) {
            if lt(b[0], c[0]) {
                assert(lt(a[0], c[0]));
            }
        } else if a[0] == b[0] && b[0] == c[0] && !lt(b[0], c[0]) {
            lemma_lex_transitive(a.drop_first(), b.drop_first(), c.drop_first(), lt);
        }
    }
}

proof fn lemma_lex_decides<T>(a: Seq<T>, b: Seq<T>, lt: spec_fn(T, T) -> bool)
    requires
        strict_total(lt),
    ensures
        a == b || lex_lt(a, b, lt) || lex_lt(b, a, lt),
    decreases a.len(),
{
    if a.len() == 0 {
        if b.len() == 0 {
            assert(a =~= b);
        }
    } else if b.len() > 0 && a[0] == b[0] {
        lemma_lex_decides(a.drop_first(), b.drop_first(), lt);
        if a.drop_first() == b.drop_first() {
            assert(a =~= seq![a[0]] + a.drop_first());
            assert(b =~= seq![b[0]] + b.drop_first());
        }
    } else if b.len() > 0 {
        assert(lt(a[0], b[0]) || lt(b[0], a[0]));
    }
}

/// The dictionary order over a strict total order is a strict total order.
pub proof fn lex_is_strict_total<T>(lt: spec_fn(T, T) -> bool)
    requires
        strict_total(lt),
    ensures
        strict_total(lex(lt)),
{
    let l = lex(lt);
    assert forall|a: Seq<T>| !#[trigger] l(a, a) by {
        lemma_lex_irreflexive(a, lt);
    }
    assert forall|a: Seq<T>, b: Seq<T>, c: Seq<T>| #[trigger] l(a, b) && #[trigger] l(b, c) implies l(a, c) by {
        lemma_lex_transitive(a, b, c, lt);
    }
    assert forall|a: Seq<T>, b: Seq<T>| a == b || #[trigger] l(a, b) || l(b, a) by {
        lemma_lex_decides(a, b, lt);
    }
}

/// Where two sequences agree on their first `k` items, dictionary order is
/// decided by what follows.
pub proof fn lemma_lex_common_prefix<T>(a: Seq<T>, b: Seq<T>, k: int, lt: spec_fn(T, T) -> bool)
    requires
        0 <= k <= a.len(),
        k <= b.len(),
        a.take(k) == b.take(k),
        forall|x: T| !#[trigger] lt(x, x),
    ensures
        lex_lt(a, b, lt) == lex_lt(a.skip(k), b.skip(k), lt),
    decreases k,
{
    if k == 0 {
        assert(a.skip(0) =~= a);
        assert(b.skip(0) =~= b);
    } else {
        assert(a[0] == a.take(k)[0]);
        assert(b[0] == b.take(k)[0]);
        assert(a.drop_first().take(k - 1) =~= a.take(k).drop_first());
        assert(b.drop_first().take(k - 1) =~= b.take(k).drop_first());
        lemma_lex_common_prefix(a.drop_first(), b.drop_first(), k - 1, lt);
        assert(a.drop_first().skip(k - 1) =~= a.skip(k));
        assert(b.drop_first().skip(k - 1) =~= b.skip(k));
        assert(!lt(a[0], b[0]));
    }
}

/// How one value stands to another in a strict total order.
#[derive(PartialEq, Eq, Structural, Clone, Copy, Debug)]
pub enum Rel {
    Before,
    Same,
    After,
}

/// `r` says how `a` stands to `b` under `lt`.
pub open spec fn rel_of<T>(r: Rel, a: T, b: T, lt: spec_fn(T, T) -> bool) -> bool {
    match r {
        Rel::Before => lt(a, b),
        Rel::Same => a == b,
        Rel::After => lt(b, a),
    }
}

/// Code-point order of characters.
pub open spec fn char_lt() -> spec_fn(char, char) -> bool {
    |a: char, b: char| a < b
}

/// Dictionary order of character sequences by code point.
pub open spec fn text_lt() -> spec_fn(Seq<char>, Seq<char>) -> bool {
    lex(char_lt())
}

/// Numeric order of bytes.
pub open spec fn byte_lt() -> spec_fn(u8, u8) -> bool {
    |a: u8, b: u8| a < b
}

/// Dictionary order of byte sequences.
pub open spec fn bytes_lt() -> spec_fn(Seq<u8>, Seq<u8>) -> bool {
    lex(byte_lt())
}

/// Texts are totally ordered.
pub proof fn text_order()
    ensures
        strict_total(char_lt()),
        strict_total(text_lt()),
{
    lex_is_strict_total(char_lt());
}

/// Byte strings are totally ordered.
pub proof fn bytes_order()
    ensures
        strict_total(byte_lt()),
        strict_total(bytes_lt()),
{
    lex_is_strict_total(byte_lt());
}

/// Compare two character sequences by code point.
pub fn compare_text(a: &[char], b: &[char]) -> (r: Rel)
    ensures
        rel_of(r, a@, b@, text_lt()),
{
    proof {
        text_order();
    }
    let n = if a.len() < b.len() { a.len() } else { b.len() };
    let mut i: usize = 0;
    while i < n
        invariant
            i <= n <= a@.len(),
            n <= b@.len(),
            n == a@.len() || n == b@.len(),
            a@.take(i as int) == b@.take(i as int),
            strict_total(char_lt()),
        decreases n - i,
    {
        if a[i] != b[i] {
            proof {
                lemma_lex_common_prefix(a@, b@, i as int, char_lt());
                lemma_lex_common_prefix(b@, a@, i as int, char_lt());
                assert(a@.skip(i as int)[0] == a@[i as int]);
                assert(b@.skip(i as int)[0] == b@[i as int]);
            }
            return if a[i] < b[i] { Rel::Before } else { Rel::After };
        }
        assert(a@.take(i + 1) =~= a@.take(i as int).push(a@[i as int]));
        assert(b@.take(i + 1) =~= b@.take(i as int).push(b@[i as int]));
        i += 1;
    }
    proof {
        lemma_lex_common_prefix(a@, b@, n as int, char_lt());
        lemma_lex_common_prefix(b@, a@, n as int, char_lt());
    }
    if a.len() == b.len() {
        assert(a@ =~= a@.take(n as int));
        assert(b@ =~= b@.take(n as int));
        Rel::Same
    } else if a.len() < b.len() {
        Rel::Before
    } else {
        Rel::After
    }
}

/// Compare two byte sequences.
pub fn compare_bytes(a: &[u8], b: &[u8]) -> (r: Rel)
    ensures
        rel_of(r, a@, b@, bytes_lt()),
{
    proof {
        bytes_order();
    }
    let n = if a.len() < b.len() { a.len() } else { b.len() };
    let mut i: usize = 0;
    while i < n
        invariant
            i <= n <= a@.len(),
            n <= b@.len(),
            n == a@.len() || n == b@.len(),
            a@.take(i as int) == b@.take(i as int),
            strict_total(byte_lt()),
        decreases n - i,
    {
        if a[i] != b[i] {
            proof {
                lemma_lex_common_prefix(a@, b@, i as int, byte_lt());
                lemma_lex_common_prefix(b@, a@, i as int, byte_lt());
                assert(a@.skip(i as int)[0] == a@[i as int]);
                assert(b@.skip(i as int)[0] == b@[i as int]);
            }
            return if a[i] < b[i] { Rel::Before } else { Rel::After };
        }
        assert(a@.take(i + 1) =~= a@.take(i as int).push(a@[i as int]));
        assert(b@.take(i + 1) =~= b@.take(i as int).push(b@[i as int]));
        i += 1;
    }
    proof {
        lemma_lex_common_prefix(a@, b@, n as int, byte_lt());
        lemma_lex_common_prefix(b@, a@, n as int, byte_lt());
    }
    if a.len() == b.len() {
        assert(a@ =~= a@.take(n as int));
        assert(b@ =~= b@.take(n as int));
        Rel::Same
    } else if a.len() < b.len() {
        Rel::Before
    } else {
        Rel::After
    }
}

/// Texts go by their first difference: behind a common beginning, the one with
/// the smaller code point comes first, and one that has ended comes before one
/// that goes on.
pub proof fn first_difference_decides(common: Seq<char>, x: char, y: char, a: Seq<char>, b: Seq<char>)
    ensures
        x as u32 == y as u32 || text_lt()(common + seq![x] + a, common + seq![y] + b) == ((x as u32) < (y as u32)),
        text_lt()(common, common + seq![y] + b),
        !text_lt()(common + seq![y] + b, common),
{
    let p = common + seq![x] + a;
    let q = common + seq![y] + b;
    let k = common.len() as int;
    assert(p.take(k) =~= common);
    assert(q.take(k) =~= common);
    assert(common.take(k) =~= common);
    lemma_lex_common_prefix(p, q, k, char_lt());
    lemma_lex_common_prefix(common, q, k, char_lt());
    lemma_lex_common_prefix(q, common, k, char_lt());
    assert(p.skip(k)[0] == x && q.skip(k)[0] == y);
    assert(common.skip(k).len() == 0);
}

/// Byte strings go by their first difference.
pub proof fn first_byte_decides(common: Seq<u8>, x: u8, y: u8, a: Seq<u8>, b: Seq<u8>)
    ensures
        x == y || bytes_lt()(common + seq![x] + a, common + seq![y] + b) == (x < y),
        bytes_lt()(common, common + seq![y] + b),
        !bytes_lt()(common + seq![y] + b, common),
{
    let p = common + seq![x] + a;
    let q = common + seq![y] + b;
    let k = common.len() as int;
    assert(p.take(k) =~= common);
    assert(q.take(k) =~= common);
    assert(common.take(k) =~= common);
    lemma_lex_common_prefix(p, q, k, byte_lt());
    lemma_lex_common_prefix(common, q, k, byte_lt());
    lemma_lex_common_prefix(q, common, k, byte_lt());
    assert(p.skip(k)[0] == x && q.skip(k)[0] == y);
    assert(common.skip(k).len() == 0);
}

} // verus!
