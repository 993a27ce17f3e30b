//! The order of keys: strings by the bytes of their UTF-8 form.
use vstd::prelude::*;
use vstd::utf8::encode_utf8;

verus! {

/// `a` and `b` agree before position `k`, and `a` is smaller from there on.
pub open spec fn smaller_at(a: Seq<u8>, b: Seq<u8>, k: int) -> bool {
    &&& 0 <= k <= a.len()
    &&& k < b.len()
    &&& forall|i: int| 0 <= i < k ==> a[i] == b[i]
    &&& k == a.len() || a[k] < b[k]
}

/// Strict lexicographic order of byte strings.
pub open spec fn bytes_precede(a: Seq<u8>, b: Seq<u8>) -> bool {
    exists|k: int| smaller_at(a, b, k)
}

/// The strict order of keys: lexicographic by UTF-8 bytes.
pub open spec fn key_precedes(a: Seq<char>, b: Seq<char>) -> bool {
    bytes_precede(encode_utf8(a), encode_utf8(b))
}

/// No key precedes itself.
pub proof fn lemma_key_irreflexive(a: Seq<char>)
    ensures
        !key_precedes(a, a),
{
    if key_precedes(a, a) {
        let k = choose|k: int| smaller_at(encode_utf8(a), encode_utf8(a), k);
        assert(smaller_at(encode_utf8(a), encode_utf8(a), k));
    }
}

proof fn lemma_bytes_transitive(a: Seq<u8>, b: Seq<u8>, c: Seq<u8>)
    requires
        bytes_precede(a, b),
        bytes_precede(b, c),
    ensures
        bytes_precede(a, c),
{
    let k = choose|k: int| smaller_at(a, b, k);
    let l = choose|l: int| smaller_at(b, c, l);
    if k <= l {
        assert(smaller_at(a, c, k));
    } else {
        assert(smaller_at(a, c, l));
    }
}

/// Keys that precede one another in turn are in order end to end.
pub proof fn lemma_key_transitive(a: Seq<char>, b: Seq<char>, c: Seq<char>)
    requires
        key_precedes(a, b),
        key_precedes(b, c),
    ensures
        key_precedes(a, c),
{
    lemma_bytes_transitive(encode_utf8(a), encode_utf8(b), encode_utf8(c));
}

/// No two keys precede each other.
pub proof fn lemma_key_asymmetric(a: Seq<char>, b: Seq<char>)
    requires
        key_precedes(a, b),
    ensures
        !key_precedes(b, a),
        a != b,
{
    if key_precedes(b, a) {
        lemma_key_transitive(a, b, a);
    }
    lemma_key_irreflexive(a);
}

proof fn lemma_bytes_total(a: Seq<u8>, b: Seq<u8>, from: int)
    requires
        0 <= from <= a.len(),
        from <= b.len(),
        forall|i: int| 0 <= i < from ==> a[i] == b[i],
    ensures
        a == b || bytes_precede(a, b) || bytes_precede(b, a),
    decreases a.len() - from,
{
    if from == a.len() || from == b.len() {
        if a.len() == b.len() {
            assert(a =~= b);
        } else if a.len() < b.len() {
            assert(smaller_at(a, b, from));
        } else {
            assert(smaller_at(b, a, from));
        }
    } else if a[from] == b[from] {
        lemma_bytes_total(a, b, from + 1);
    } else if a[from] < b[from] {
        assert(smaller_at(a, b, from));
    } else {
        assert(smaller_at(b, a, from));
    }
}

/// Of two different keys one precedes the other.
pub proof fn lemma_key_total(a: Seq<char>, b: Seq<char>)
    ensures
        a == b || key_precedes(a, b) || key_precedes(b, a),
{
    lemma_bytes_total(encode_utf8(a), encode_utf8(b), 0);
    vstd::utf8::encode_utf8_decode_utf8(a);
    vstd::utf8::encode_utf8_decode_utf8(b);
}

/// Whether `a` precedes `b` in the order of keys.
pub fn str_precedes(a: &str, b: &str) -> (less: bool)
    ensures
        less == key_precedes(a@, b@),
{
    let left: &[u8] = a.as_bytes();
    let right: &[u8] = b.as_bytes();
    let ghost x = encode_utf8(a@);
    let ghost y = encode_utf8(b@);
    let mut k: usize = 0;
    while k < left.len() && k < right.len() && left[k] == right[k]
        invariant
            left@ == x,
            right@ == y,
            k <= left.len(),
            k <= right.len(),
            forall|i: int| 0 <= i < k ==> x[i] == y[i],
        decreases left.len() - k,
    {
        k += 1;
    }
    let less = k < right.len() && (k == left.len() || left[k] < right[k]);
    proof {
        if less {
            assert(smaller_at(x, y, k as int));
        } else if bytes_precede(x, y) {
            let l = choose|l: int| smaller_at(x, y, l);
            assert(smaller_at(x, y, l));
            if l < k {
                assert(x[l] == y[l]);
            } else if l > k {
                assert(x[k as int] == y[k as int]);
            }
        }
    }
    less
}

/// Keys are ordered by their bytes in UTF-8: at the first byte in which two keys differ,
/// the one with the smaller byte comes first, and a key comes before every longer one that
/// starts with it. So of two keys that are encoded differently exactly one comes first.
pub proof fn law_keys_are_ordered_by_their_bytes(a: Seq<char>, b: Seq<char>, k: int)
    requires
        0 <= k <= encode_utf8(a).len(),
        k <= encode_utf8(b).len(),
        forall|i: int| 0 <= i < k ==> encode_utf8(a)[i] == encode_utf8(b)[i],
    ensures
        ({
            let left = encode_utf8(a);
            let right = encode_utf8(b);
            &&& k == left.len() && k < right.len() ==> key_precedes(a, b) && !key_precedes(b, a)
            &&& k < left.len() && k < right.len() && left[k] < right[k] ==> key_precedes(a, b)
                && !key_precedes(b, a)
            &&& k == left.len() && k == right.len() ==> !key_precedes(a, b) && !key_precedes(b, a)
        }),
{
    let left = encode_utf8(a);
    let right = encode_utf8(b);
    if key_precedes(b, a) {
        let j = choose|j: int| smaller_at(right, left, j);
        assert(smaller_at(right, left, j));
        if j < k {
            assert(left[j] == right[j]);
        }
    }
    if k == left.len() && k == right.len() && key_precedes(a, b) {
        let j = choose|j: int| smaller_at(left, right, j);
        assert(smaller_at(left, right, j));
    }
    if k < right.len() && (k == left.len() || left[k] < right[k]) {
        assert(smaller_at(left, right, k));
    }
}

} // verus!
