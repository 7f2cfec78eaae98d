//! Ordering of paths and environment names.
//!
//! Keys are ordered the way Rust orders strings: lexicographically, by the
//! bytes of their UTF-8 encoding.

use vstd::prelude::*;
use vstd::string::StringSliceAdditionalSpecFns;
use vstd::utf8::{encode_utf8, encode_utf8_decode_utf8};

verus! {

/// The view of an optional text.
pub open spec fn text_view(t: Option<String>) -> Option<Seq<char>> {
    match t {
        Some(t) => Some(t@),
        None => None,
    }
}

/// The first `k` bytes of `a` and of `b` are the same.
pub open spec fn agree_before(a: Seq<u8>, b: Seq<u8>, k: int) -> bool {
    &&& 0 <= k <= a.len()
    &&& k <= b.len()
    &&& forall|i: int| 0 <= i < k ==> a[i] == b[i]
}

/// `a` and `b` part ways at position `k`, and `a` is the smaller one there:
/// either `a` ends at `k` and `b` goes on, or `a` holds the smaller byte.
pub open spec fn parts_below(a: Seq<u8>, b: Seq<u8>, k: int) -> bool {
    &&& agree_before(a, b, k)
    &&& (k == a.len() && k < b.len()) || (k < a.len() && k < b.len() && a[k] < b[k])
}

/// Strict lexicographic order on byte strings.
pub open spec fn bytes_before(a: Seq<u8>, b: Seq<u8>) -> bool {
    exists|k: int| #[trigger] parts_below(a, b, k)
}

/// Strict order on texts: the order of their UTF-8 encodings.
pub open spec fn text_before(a: Seq<char>, b: Seq<char>) -> bool {
    bytes_before(encode_utf8(a), encode_utf8(b))
}

/// A sequence of texts in strictly ascending order.
pub open spec fn ascending(keys: Seq<Seq<char>>) -> bool {
    forall|i: int, j: int| 0 <= i < j < keys.len() ==> text_before(#[trigger] keys[i], #[trigger] keys[j])
}

/// No byte string comes before itself.
pub proof fn lemma_bytes_before_irreflexive(a: Seq<u8>)
    ensures
        !bytes_before(a, a),
{
}

/// The order is transitive.
pub proof fn lemma_bytes_before_transitive(a: Seq<u8>, b: Seq<u8>, c: Seq<u8>)
    requires
        bytes_before(a, b),
        bytes_before(b, c),
    ensures
        bytes_before(a, c),
{
    let k1 = choose|k: int| #[trigger] parts_below(a, b, k);
    let k2 = choose|k: int| #[trigger] parts_below(b, c, k);
    let k = if k1 <= k2 { k1 } else { k2 };
    assert(parts_below(a, c, k));
}

/// Two byte strings are never each before the other.
pub proof fn lemma_bytes_before_asymmetric(a: Seq<u8>, b: Seq<u8>)
    requires
        bytes_before(a, b),
    ensures
        !bytes_before(b, a),
{
    if bytes_before(b, a) {
        lemma_bytes_before_transitive(a, b, a);
        lemma_bytes_before_irreflexive(a);
    }
}

/// Texts with the same encoding are the same text.
pub proof fn lemma_encoding_injective(a: Seq<char>, b: Seq<char>)
    requires
        encode_utf8(a) == encode_utf8(b),
    ensures
        a == b,
{
    encode_utf8_decode_utf8(a);
    encode_utf8_decode_utf8(b);
}

/// No text comes before itself.
pub proof fn lemma_text_before_irreflexive(a: Seq<char>)
    ensures
        !text_before(a, a),
{
    lemma_bytes_before_irreflexive(encode_utf8(a));
}

/// The order on texts is transitive.
pub proof fn lemma_text_before_transitive(a: Seq<char>, b: Seq<char>, c: Seq<char>)
    requires
        text_before(a, b),
        text_before(b, c),
    ensures
        text_before(a, c),
{
    lemma_bytes_before_transitive(encode_utf8(a), encode_utf8(b), encode_utf8(c));
}

/// Of two different texts exactly one comes before the other.
pub proof fn lemma_text_before_total(a: Seq<char>, b: Seq<char>)
    ensures
        a == b || text_before(a, b) || text_before(b, a),
        !(text_before(a, b) && text_before(b, a)),
        a == b ==> !text_before(a, b),
{
    let x = encode_utf8(a);
    let y = encode_utf8(b);
    if text_before(a, b) {
        lemma_bytes_before_asymmetric(x, y);
    }
    lemma_text_before_irreflexive(a);
    if a != b && !text_before(a, b) && !text_before(b, a) {
        lemma_first_difference(x, y, 0);
        lemma_encoding_injective(a, b);
    }
}

/// From a position up to which two byte strings agree, either they are
/// equal or one of them is below the other.
proof fn lemma_first_difference(a: Seq<u8>, b: Seq<u8>, k: int)
    requires
        agree_before(a, b, k),
    ensures
        a == b || bytes_before(a, b) || bytes_before(b, a),
    decreases a.len() - k,
{
    if k == a.len() && k == b.len() {
        assert(a =~= b);
    } else if k == a.len() {
        assert(parts_below(a, b, k));
    } else if k == b.len() {
        assert(agree_before(b, a, k));
        assert(parts_below(b, a, k));
    } else if a[k] < b[k] {
        assert(parts_below(a, b, k));
    } else if b[k] < a[k] {
        assert(agree_before(b, a, k));
        assert(parts_below(b, a, k));
    } else {
        lemma_first_difference(a, b, k + 1);
    }
}

/// How one text stands to another in the order.
#[derive(Clone, Copy, Debug, PartialEq, Eq)]
pub enum Position {
    Before,
    Same,
    After,
}

/// Compares two strings byte by byte.
pub fn compare_text(a: &str, b: &str) -> (p: Position)
    ensures
        (p == Position::Before) == text_before(a@, b@),
        (p == Position::Same) == (a@ == b@),
        (p == Position::After) == text_before(b@, a@),
{
    let x = a.as_bytes();
    let y = b.as_bytes();
    proof {
        lemma_text_before_total(a@, b@);
    }
    let mut i: usize = 0;
    while i < x.len() && i < y.len()
        invariant
            agree_before(x@, y@, i as int),
            x@ == encode_utf8(a@),
            y@ == encode_utf8(b@),
        decreases x.len() - i,
    {
        if x[i] < y[i] {
            assert(parts_below(x@, y@, i as int));
            return Position::Before;
        }
        if x[i] > y[i] {
            assert(agree_before(y@, x@, i as int));
            assert(parts_below(y@, x@, i as int));
            return Position::After;
        }
        i += 1;
    }
    if x.len() < y.len() {
        assert(parts_below(x@, y@, i as int));
        Position::Before
    } else if x.len() > y.len() {
        assert(agree_before(y@, x@, i as int));
        assert(parts_below(y@, x@, i as int));
        Position::After
    } else {
        assert(x@ =~= y@);
        proof {
            lemma_encoding_injective(a@, b@);
        }
        Position::Same
    }
}

/// Whether two strings hold the same text.
pub fn same_text(a: &str, b: &str) -> (r: bool)
    ensures
        r == (a@ == b@),
{
    match compare_text(a, b) {
        Position::Same => true,
        _ => false,
    }
}

} // verus!
