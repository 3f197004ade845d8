//! Content identifiers and the order in which they are kept.

use vstd::prelude::*;
use vstd::utf8::*;

verus! {

/// A content identifier: the lower-case hexadecimal rendering of a digest.
pub type Cid = String;

/// Lexicographic comparison of two byte strings from position `i` on,
/// given that they agree before `i`. A proper prefix comes first.
pub open spec fn bytes_lt_from(a: Seq<u8>, b: Seq<u8>, i: int) -> bool
    decreases a.len() - i,
{
    if i >= b.len() {
        false
    } else if i >= a.len() {
        true
    } else if a[i] != b[i] {
        a[i] < b[i]
    } else {
        bytes_lt_from(a, b, i + 1)
    }
}

/// The order of identifiers: lexicographic by the bytes of their UTF-8
/// encoding, which is the order of `String` itself.
pub open spec fn cid_lt(a: Seq<char>, b: Seq<char>) -> bool {
    bytes_lt_from(encode_utf8(a), encode_utf8(b), 0)
}

/// Two byte strings that agree from `i` on, given that they agree before.
spec fn same_from(a: Seq<u8>, b: Seq<u8>, i: int) -> bool {
    a.len() == b.len() && forall|k: int| i <= k < a.len() ==> a[k] == b[k]
}

proof fn lemma_bytes_irreflexive(a: Seq<u8>, i: int)
    requires
        0 <= i,
    ensures
        !bytes_lt_from(a, a, i),
    decreases a.len() - i,
{
    if i < a.len() {
        lemma_bytes_irreflexive(a, i + 1);
    }
}

proof fn lemma_bytes_transitive(a: Seq<u8>, b: Seq<u8>, c: Seq<u8>, i: int)
    requires
        0 <= i,
        bytes_lt_from(a, b, i),
        bytes_lt_from(b, c, i),
    ensures
        bytes_lt_from(a, c, i),
    decreases a.len() - i,
{
    if i < a.len() && a[i] == b[i] && b[i] == c[i] {
        lemma_bytes_transitive(a, b, c, i + 1);
    }
}

proof fn lemma_bytes_connected(a: Seq<u8>, b: Seq<u8>, i: int)
    requires
        0 <= i <= a.len(),
        i <= b.len(),
        !bytes_lt_from(a, b, i),
        !bytes_lt_from(b, a, i),
    ensures
        same_from(a, b, i),
    decreases a.len() - i,
{
    if i < a.len() && i < b.len() {
        lemma_bytes_connected(a, b, i + 1);
    }
}

/// No identifier comes before itself.
pub proof fn lemma_cid_lt_irreflexive(a: Seq<char>)
    ensures
        !cid_lt(a, a),
{
    lemma_bytes_irreflexive(encode_utf8(a), 0);
}

/// The order of identifiers is transitive.
pub proof fn lemma_cid_lt_transitive(a: Seq<char>, b: Seq<char>, c: Seq<char>)
    requires
        cid_lt(a, b),
        cid_lt(b, c),
    ensures
        cid_lt(a, c),
{
    lemma_bytes_transitive(encode_utf8(a), encode_utf8(b), encode_utf8(c), 0);
}

/// Of two different identifiers one comes before the other.
pub proof fn lemma_cid_lt_connected(a: Seq<char>, b: Seq<char>)
    requires
        !cid_lt(a, b),
        !cid_lt(b, a),
    ensures
        a == b,
{
    let x = encode_utf8(a);
    let y = encode_utf8(b);
    lemma_bytes_connected(x, y, 0);
    assert(x =~= y);
    encode_utf8_decode_utf8(a);
    encode_utf8_decode_utf8(b);
}

/// Whether `a` comes before `b` in the order of identifiers.
pub fn cid_less(a: &Cid, b: &Cid) -> (r: bool)
    ensures
        r == cid_lt(a@, b@),
{
    let x = a.as_str().as_bytes();
    let y = b.as_str().as_bytes();
    let mut i: usize = 0;
    while i < x.len() && i < y.len() && x[i] == y[i]
        invariant
            i <= x.len(),
            i <= y.len(),
            x@ == encode_utf8(a@),
            y@ == encode_utf8(b@),
            bytes_lt_from(x@, y@, 0) == bytes_lt_from(x@, y@, i as int),
        decreases x.len() - i,
    {
        i += 1;
    }
    if i >= y.len() {
        false
    } else if i >= x.len() {
        true
    } else {
        x[i] < y[i]
    }
}

} // verus!
