//! Lexicographic order on sequences, and the order of strings by their bytes.

use vstd::prelude::*;
use vstd::utf8::*;

verus! {

/// `less` is a strict total order: nothing precedes itself, precedence carries
/// over a middle element, and of two different elements one precedes the other.
pub open spec fn is_strict_total_order<T>(less: spec_fn(T, T) -> bool) -> bool {
    &&& forall|x: T| !#[trigger] less(x, x)
    &&& forall|x: T, y: T, z: T| #[trigger] less(x, y) && #[trigger] less(y, z) ==> less(x, z)
    &&& forall|x: T, y: T| x != y ==> #[trigger] less(x, y) || less(y, x)
}

/// `a` and `b` hold the same elements at their first `k` positions.
pub open spec fn agree_before<T>(a: Seq<T>, b: Seq<T>, k: int) -> bool {
    &&& 0 <= k <= a.len()
    &&& k <= b.len()
    &&& forall|j: int| 0 <= j < k ==> a[j] == b[j]
}

/// Position `k` puts `a` before `b`: they agree before `k`, and at `k` either
/// `a` ends while `b` goes on, or `a` holds the smaller element.
pub open spec fn less_at<T>(a: Seq<T>, b: Seq<T>, less: spec_fn(T, T) -> bool, k: int) -> bool {
    &&& agree_before(a, b, k)
    &&& k < b.len()
    &&& k < a.len() ==> less(a[k], b[k])
}

/// `a` precedes `b` in the lexicographic order that `less` induces: `a` is a
/// proper prefix of `b`, or `a` holds the smaller element where they first differ.
pub open spec fn lex_less<T>(a: Seq<T>, b: Seq<T>, less: spec_fn(T, T) -> bool) -> bool {
    exists|k: int| less_at(a, b, less, k)
}

/// Where two sequences agree before `k` and part ways at `k`, position `k`
/// alone decides their order.
pub proof fn lemma_lex_decided_at<T>(a: Seq<T>, b: Seq<T>, less: spec_fn(T, T) -> bool, k: int)
    requires
        is_strict_total_order(less),
        agree_before(a, b, k),
        k == a.len() || k == b.len() || a[k] != b[k],
    ensures
        lex_less(a, b, less) == less_at(a, b, less, k),
{
    if lex_less(a, b, less) {
        let w = choose|w: int| less_at(a, b, less, w);
        if w < k {
            assert(a[w] == b[w]);
            assert(!less(a[w], b[w]));
        } else if w > k {
            assert(a[k] == b[k]);
        }
    }
}

pub proof fn lemma_lex_irreflexive<T>(a: Seq<T>, less: spec_fn(T, T) -> bool)
    requires
        is_strict_total_order(less),
    ensures
        !lex_less(a, a, less),
{
    lemma_lex_decided_at(a, a, less, a.len() as int);
}

pub proof fn lemma_lex_transitive<T>(a: Seq<T>, b: Seq<T>, c: Seq<T>, less: spec_fn(T, T) -> bool)
    requires
        is_strict_total_order(less),
        lex_less(a, b, less),
        lex_less(b, c, less),
    ensures
        lex_less(a, c, less),
{
    let i = choose|i: int| less_at(a, b, less, i);
    let j = choose|j: int| less_at(b, c, less, j);
    if i < j {
        assert(b[i] == c[i]);
        assert(less_at(a, c, less, i));
    } else if j < i {
        assert(a[j] == b[j]);
        assert(less_at(a, c, less, j));
    } else {
        if i < a.len() {
            assert(less(a[i], b[i]) && less(b[i], c[i]));
        }
        assert(less_at(a, c, less, i));
    }
}

/// Two sequences that agree before `k` are equal, or one precedes the other.
proof fn lemma_lex_total_from<T>(a: Seq<T>, b: Seq<T>, less: spec_fn(T, T) -> bool, k: int)
    requires
        is_strict_total_order(less),
        agree_before(a, b, k),
    ensures
        a == b || lex_less(a, b, less) || lex_less(b, a, less),
    decreases a.len() - k,
{
    if k == a.len() {
        if k == b.len() {
            assert(a =~= b);
        } else {
            assert(less_at(a, b, less, k));
        }
    } else if k == b.len() {
        assert(less_at(b, a, less, k));
    } else if a[k] == b[k] {
        lemma_lex_total_from(a, b, less, k + 1);
    } else if less(a[k], b[k]) {
        assert(less_at(a, b, less, k));
    } else {
        assert(less(b[k], a[k]));
        assert(less_at(b, a, less, k));
    }
}

pub proof fn lemma_lex_total<T>(a: Seq<T>, b: Seq<T>, less: spec_fn(T, T) -> bool)
    requires
        is_strict_total_order(less),
        a != b,
    ensures
        lex_less(a, b, less) || lex_less(b, a, less),
{
    lemma_lex_total_from(a, b, less, 0);
}

/// A sequence precedes each of its extensions.
pub proof fn lemma_lex_extension<T>(a: Seq<T>, x: T, less: spec_fn(T, T) -> bool)
    ensures
        lex_less(a, a.push(x), less),
{
    assert(less_at(a, a.push(x), less, a.len() as int));
}

/// The order of bytes by their value.
pub open spec fn byte_order() -> spec_fn(u8, u8) -> bool {
    |x: u8, y: u8| x < y
}

/// `a` precedes `b` in the order of strings: the lexicographic order of their
/// UTF-8 encodings, byte by byte.
pub open spec fn str_less(a: Seq<char>, b: Seq<char>) -> bool {
    lex_less(encode_utf8(a), encode_utf8(b), byte_order())
}

pub proof fn lemma_str_less_irreflexive(a: Seq<char>)
    ensures
        !str_less(a, a),
{
    lemma_lex_irreflexive(encode_utf8(a), byte_order());
}

pub proof fn lemma_str_less_transitive(a: Seq<char>, b: Seq<char>, c: Seq<char>)
    requires
        str_less(a, b),
        str_less(b, c),
    ensures
        str_less(a, c),
{
    lemma_lex_transitive(encode_utf8(a), encode_utf8(b), encode_utf8(c), byte_order());
}

pub proof fn lemma_str_less_total(a: Seq<char>, b: Seq<char>)
    requires
        a != b,
    ensures
        str_less(a, b) || str_less(b, a),
{
    encode_utf8_decode_utf8(a);
    encode_utf8_decode_utf8(b);
    lemma_lex_total(encode_utf8(a), encode_utf8(b), byte_order());
}

/// Tells whether `a` precedes `b` in the order of strings.
pub fn str_precedes(a: &str, b: &str) -> (r: bool)
    ensures
        r == str_less(a@, b@),
{
    let x = a.as_bytes();
    let y = b.as_bytes();
    let mut i: usize = 0;
    while i < x.len() && i < y.len()
        invariant
            x@ == encode_utf8(a@),
            y@ == encode_utf8(b@),
            agree_before(x@, y@, i as int),
        decreases x.len() - i,
    {
        if x[i] != y[i] {
            proof {
                lemma_lex_decided_at(x@, y@, byte_order(), i as int);
            }
            return x[i] < y[i];
        }
        i += 1;
    }
    proof {
        lemma_lex_decided_at(x@, y@, byte_order(), i as int);
    }
    i < y.len()
}

} // verus!
