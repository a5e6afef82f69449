//! Three-way comparisons as integers (-1, 0, 1) and their lexicographic combination.
use vstd::prelude::*;

use vstd::utf8::encode_utf8;

verus! {

/// Three-way comparison of integers.
pub open spec fn order_int(a: int, b: int) -> int {
    if a < b {
        -1
    } else if a > b {
        1
    } else {
        0
    }
}

/// The first comparison unless it is a tie, then the second.
pub open spec fn lex(first: int, rest: int) -> int {
    if first != 0 {
        first
    } else {
        rest
    }
}

/// Lexicographic three-way comparison of byte strings; a proper prefix is smaller.
pub open spec fn order_bytes(a: Seq<u8>, b: Seq<u8>) -> int
    decreases a.len(),
{
    if a.len() == 0 && b.len() == 0 {
        0
    } else if a.len() == 0 {
        -1
    } else if b.len() == 0 {
        1
    } else if a[0] != b[0] {
        order_int(a[0] as int, b[0] as int)
    } else {
        order_bytes(a.drop_first(), b.drop_first())
    }
}

/// Three-way comparison of strings as Rust orders them: by their UTF-8 bytes.
pub open spec fn order_str(a: Seq<char>, b: Seq<char>) -> int {
    order_bytes(encode_utf8(a), encode_utf8(b))
}

/// Byte comparison is a total order: antisymmetric, zero exactly on equal
/// strings, and transitive.
pub proof fn lemma_order_bytes_order(a: Seq<u8>, b: Seq<u8>, c: Seq<u8>)
    ensures
        order_bytes(a, b) == -order_bytes(b, a),
        -1 <= order_bytes(a, b) <= 1,
        (order_bytes(a, b) == 0) <==> (a =~= b),
        order_bytes(a, b) < 0 && order_bytes(b, c) < 0 ==> order_bytes(a, c) < 0,
    decreases a.len(),
{
    if a.len() > 0 && b.len() > 0 && c.len() > 0 {
        lemma_order_bytes_order(a.drop_first(), b.drop_first(), c.drop_first());
        if a[0] == b[0] && order_bytes(a.drop_first(), b.drop_first()) == 0 {
            assert(a =~= seq![a[0]] + a.drop_first());
            assert(b =~= seq![b[0]] + b.drop_first());
        }
    } else if a.len() > 0 && b.len() > 0 {
        lemma_order_bytes_order(a.drop_first(), b.drop_first(), b.drop_first());
        if a[0] == b[0] && order_bytes(a.drop_first(), b.drop_first()) == 0 {
            assert(a =~= seq![a[0]] + a.drop_first());
            assert(b =~= seq![b[0]] + b.drop_first());
        }
    }
    if a =~= b {
        lemma_order_bytes_reflexive(a);
    }
}

proof fn lemma_order_bytes_reflexive(a: Seq<u8>)
    ensures
        order_bytes(a, a) == 0,
    decreases a.len(),
{
    if a.len() > 0 {
        lemma_order_bytes_reflexive(a.drop_first());
    }
}

/// Compare two byte strings lexicographically.
pub fn compare_bytes(a: &[u8], b: &[u8]) -> (r: i8)
    ensures
        r == order_bytes(a@, b@),
{
    let mut i: usize = 0;
    assert(a@.skip(0) =~= a@ && b@.skip(0) =~= b@);
    while i < a.len() && i < b.len() && a[i] == b[i]
        invariant
            0 <= i <= a@.len(),
            i <= b@.len(),
            order_bytes(a@, b@) == order_bytes(a@.skip(i as int), b@.skip(i as int)),
        decreases a.len() - i,
    {
        proof {
            let sa = a@.skip(i as int);
            let sb = b@.skip(i as int);
            assert(sa[0] == sb[0]);
            assert(sa.drop_first() =~= a@.skip(i + 1));
            assert(sb.drop_first() =~= b@.skip(i + 1));
        }
        i = i + 1;
    }
    let ghost sa = a@.skip(i as int);
    let ghost sb = b@.skip(i as int);
    if i == a.len() && i == b.len() {
        0
    } else if i == a.len() {
        -1
    } else if i == b.len() {
        1
    } else if a[i] < b[i] {
        assert(sa[0] == a@[i as int] && sb[0] == b@[i as int]);
        -1
    } else {
        assert(sa[0] == a@[i as int] && sb[0] == b@[i as int]);
        1
    }
}

/// Compare two strings as Rust orders them.
pub fn compare_str(a: &str, b: &str) -> (r: i8)
    ensures
        r == order_str(a@, b@),
{
    compare_bytes(a.as_bytes(), b.as_bytes())
}

/// Three-way comparison of two unsigned integers.
pub fn compare_u128(a: u128, b: u128) -> (r: i8)
    ensures
        r == order_int(a as int, b as int),
{
    if a < b {
        -1
    } else if a > b {
        1
    } else {
        0
    }
}

/// Lexicographic three-way comparison of word sequences; a proper prefix is smaller.
pub open spec fn order_words(a: Seq<u64>, b: Seq<u64>) -> int
    decreases a.len(),
{
    if a.len() == 0 && b.len() == 0 {
        0
    } else if a.len() == 0 {
        -1
    } else if b.len() == 0 {
        1
    } else if a[0] != b[0] {
        order_int(a[0] as int, b[0] as int)
    } else {
        order_words(a.drop_first(), b.drop_first())
    }
}

/// Word-sequence comparison is a total order: antisymmetric, zero exactly on
/// equal sequences, and transitive.
pub proof fn lemma_order_words_order(a: Seq<u64>, b: Seq<u64>, c: Seq<u64>)
    ensures
        order_words(a, b) == -order_words(b, a),
        -1 <= order_words(a, b) <= 1,
        (order_words(a, b) == 0) <==> (a =~= b),
        order_words(a, b) < 0 && order_words(b, c) < 0 ==> order_words(a, c) < 0,
        order_words(a, b) <= 0 && order_words(b, c) <= 0 ==> order_words(a, c) <= 0,
    decreases a.len(),
{
    if a.len() > 0 && b.len() > 0 && c.len() > 0 {
        lemma_order_words_order(a.drop_first(), b.drop_first(), c.drop_first());
        if a[0] == b[0] && order_words(a.drop_first(), b.drop_first()) == 0 {
            assert(a =~= seq![a[0]] + a.drop_first());
            assert(b =~= seq![b[0]] + b.drop_first());
        }
        if b[0] == c[0] && order_words(b.drop_first(), c.drop_first()) == 0 {
            assert(b =~= seq![b[0]] + b.drop_first());
            assert(c =~= seq![c[0]] + c.drop_first());
        }
    } else if a.len() > 0 && b.len() > 0 {
        lemma_order_words_order(a.drop_first(), b.drop_first(), b.drop_first());
        if a[0] == b[0] && order_words(a.drop_first(), b.drop_first()) == 0 {
            assert(a =~= seq![a[0]] + a.drop_first());
            assert(b =~= seq![b[0]] + b.drop_first());
        }
    }
    if a =~= b {
        lemma_order_words_reflexive(a);
    }
    if b =~= c {
        lemma_order_words_reflexive(b);
    }
}

proof fn lemma_order_words_reflexive(a: Seq<u64>)
    ensures
        order_words(a, a) == 0,
    decreases a.len(),
{
    if a.len() > 0 {
        lemma_order_words_reflexive(a.drop_first());
    }
}

/// Compare two word sequences lexicographically.
pub fn compare_words(a: &[u64], b: &[u64]) -> (r: i8)
    ensures
        r == order_words(a@, b@),
{
    let mut i: usize = 0;
    assert(a@.skip(0) =~= a@ && b@.skip(0) =~= b@);
    while i < a.len() && i < b.len() && a[i] == b[i]
        invariant
            0 <= i <= a@.len(),
            i <= b@.len(),
            order_words(a@, b@) == order_words(a@.skip(i as int), b@.skip(i as int)),
        decreases a.len() - i,
    {
        proof {
            let sa = a@.skip(i as int);
            let sb = b@.skip(i as int);
            assert(sa[0] == sb[0]);
            assert(sa.drop_first() =~= a@.skip(i + 1));
            assert(sb.drop_first() =~= b@.skip(i + 1));
        }
        i = i + 1;
    }
    let ghost sa = a@.skip(i as int);
    let ghost sb = b@.skip(i as int);
    if i == a.len() && i == b.len() {
        0
    } else if i == a.len() {
        -1
    } else if i == b.len() {
        1
    } else if a[i] < b[i] {
        assert(sa[0] == a@[i as int] && sb[0] == b@[i as int]);
        -1
    } else {
        assert(sa[0] == a@[i as int] && sb[0] == b@[i as int]);
        1
    }
}

/// Every element of `s` precedes every later one in `lt`.
pub open spec fn strictly_sorted_by<A>(s: Seq<A>, lt: spec_fn(A, A) -> bool) -> bool {
    forall|i: int, j: int| 0 <= i < j < s.len() ==> lt(#[trigger] s[i], #[trigger] s[j])
}

/// Two sequences strictly sorted by the same irreflexive, transitive
/// relation, with the same members, are equal.
pub proof fn lemma_sorted_unique<A>(a: Seq<A>, b: Seq<A>, lt: spec_fn(A, A) -> bool)
    requires
        forall|x: A| !(#[trigger] lt(x, x)),
        forall|x: A, y: A, z: A| #[trigger] lt(x, y) && #[trigger] lt(y, z) ==> lt(x, z),
        strictly_sorted_by(a, lt),
        strictly_sorted_by(b, lt),
        forall|x: A| a.contains(x) <==> b.contains(x),
    ensures
        a == b,
    decreases a.len(),
{
    if a.len() == 0 {
        if b.len() > 0 {
            assert(b.contains(b[0]));
        }
        assert(a =~= b);
    } else {
        assert(a.contains(a[0]));
        assert(b.len() > 0);
        assert(b.contains(b[0]));
        let j = choose|j: int| 0 <= j < b.len() && b[j] == a[0];
        let i = choose|i: int| 0 <= i < a.len() && a[i] == b[0];
        if i > 0 && j > 0 {
            assert(lt(a[0], a[i]));
            assert(lt(b[0], b[j]));
            assert(lt(a[0], a[0]));
        } else if i > 0 {
            assert(lt(a[0], a[i]));
            assert(lt(a[0], a[0]));
        } else if j > 0 {
            assert(lt(b[0], b[j]));
            assert(lt(b[0], b[0]));
        }
        assert(a[0] == b[0]);
        let ta = a.drop_first();
        let tb = b.drop_first();
        assert forall|x: A| ta.contains(x) <==> tb.contains(x) by {
            if ta.contains(x) {
                let k = choose|k: int| 0 <= k < ta.len() && ta[k] == x;
                assert(a[k + 1] == x);
                assert(lt(a[0], a[k + 1]));
                assert(b.contains(x));
                let m = choose|m: int| 0 <= m < b.len() && b[m] == x;
                if m == 0 {
                    assert(lt(x, x));
                }
                assert(tb[m - 1] == x);
            }
            if tb.contains(x) {
                let k = choose|k: int| 0 <= k < tb.len() && tb[k] == x;
                assert(b[k + 1] == x);
                assert(lt(b[0], b[k + 1]));
                assert(a.contains(x));
                let m = choose|m: int| 0 <= m < a.len() && a[m] == x;
                if m == 0 {
                    assert(lt(x, x));
                }
                assert(ta[m - 1] == x);
            }
        }
        assert(strictly_sorted_by(ta, lt)) by {
            assert forall|p: int, q: int| 0 <= p < q < ta.len() implies lt(#[trigger] ta[p], #[trigger] ta[q]) by {
                assert(ta[p] == a[p + 1] && ta[q] == a[q + 1]);
            }
        }
        assert(strictly_sorted_by(tb, lt)) by {
            assert forall|p: int, q: int| 0 <= p < q < tb.len() implies lt(#[trigger] tb[p], #[trigger] tb[q]) by {
                assert(tb[p] == b[p + 1] && tb[q] == b[q + 1]);
            }
        }
        lemma_sorted_unique(ta, tb, lt);
        assert(a =~= seq![a[0]] + ta);
        assert(b =~= seq![b[0]] + tb);
    }
}

/// Whether two strings are equal.
pub fn str_equal(a: &str, b: &str) -> (r: bool)
    ensures
        r == (a@ == b@),
{
    let o = compare_str(a, b);
    proof {
        lemma_order_bytes_order(encode_utf8(a@), encode_utf8(b@), encode_utf8(b@));
        vstd::utf8::encode_utf8_decode_utf8(a@);
        vstd::utf8::encode_utf8_decode_utf8(b@);
    }
    o == 0
}

} // verus!
