//! Intent and source identifiers: strings, ordered by their UTF-8 bytes.

use vstd::prelude::*;
use vstd::utf8::{encode_utf8, encode_utf8_decode_utf8, decode_utf8};
use vstd::string::StringSliceAdditionalSpecFns;

verus! {

/// `a` comes before `b` in the lexicographic order of bytes, looking only at
/// positions from `i` on; the bytes before `i` are taken to agree.
pub open spec fn bytes_lt_from(a: Seq<u8>, b: Seq<u8>, i: int) -> bool
    decreases a.len() - i,
{
    if i < 0 || i >= b.len() {
        false
    } else if i >= a.len() {
        true
    } else if a[i] != b[i] {
        a[i] < b[i]
    } else {
        bytes_lt_from(a, b, i + 1)
    }
}

/// `a` comes before `b` in the lexicographic order of bytes.
pub open spec fn bytes_lt(a: Seq<u8>, b: Seq<u8>) -> bool {
    bytes_lt_from(a, b, 0)
}

/// The identifier `a` sorts before the identifier `b`: the order of their
/// UTF-8 encodings, byte by byte.
pub open spec fn id_lt(a: Seq<char>, b: Seq<char>) -> bool {
    bytes_lt(encode_utf8(a), encode_utf8(b))
}

/// `a` and `b` agree on every position below `i`.
pub open spec fn agree_below(a: Seq<u8>, b: Seq<u8>, i: int) -> bool {
    &&& 0 <= i <= a.len()
    &&& i <= b.len()
    &&& forall|j: int| 0 <= j < i ==> a[j] == b[j]
}

proof fn lemma_lt_from_irreflexive(a: Seq<u8>, i: int)
    requires
        0 <= i,
    ensures
        !bytes_lt_from(a, a, i),
    decreases a.len() - i,
{
    if i < a.len() {
        lemma_lt_from_irreflexive(a, i + 1);
    }
}

proof fn lemma_lt_from_transitive(a: Seq<u8>, b: Seq<u8>, c: Seq<u8>, i: int)
    requires
        0 <= i,
        bytes_lt_from(a, b, i),
        bytes_lt_from(b, c, i),
    ensures
        bytes_lt_from(a, c, i),
    decreases a.len() - i,
{
    if i < a.len() && a[i] == b[i] && b[i] == c[i] {
        lemma_lt_from_transitive(a, b, c, i + 1);
    }
}

proof fn lemma_lt_from_total(a: Seq<u8>, b: Seq<u8>, i: int)
    requires
        agree_below(a, b, i),
        a != b,
    ensures
        bytes_lt_from(a, b, i) || bytes_lt_from(b, a, i),
    decreases a.len() - i,
{
    if i < a.len() && i < b.len() {
        if a[i] == b[i] {
            lemma_lt_from_total(a, b, i + 1);
        }
    } else if i >= a.len() && i >= b.len() {
        assert(a =~= b);
    }
}

proof fn lemma_lt_from_asymmetric(a: Seq<u8>, b: Seq<u8>, i: int)
    requires
        0 <= i,
        bytes_lt_from(a, b, i),
    ensures
        !bytes_lt_from(b, a, i),
    decreases a.len() - i,
{
    if i < a.len() && a[i] == b[i] {
        lemma_lt_from_asymmetric(a, b, i + 1);
    }
}

/// No byte string comes before itself.
pub proof fn lemma_bytes_lt_irreflexive(a: Seq<u8>)
    ensures
        !bytes_lt(a, a),
{
    lemma_lt_from_irreflexive(a, 0);
}

/// The byte order is transitive.
pub proof fn lemma_bytes_lt_transitive(a: Seq<u8>, b: Seq<u8>, c: Seq<u8>)
    requires
        bytes_lt(a, b),
        bytes_lt(b, c),
    ensures
        bytes_lt(a, c),
{
    lemma_lt_from_transitive(a, b, c, 0);
}

/// Of two different byte strings exactly one comes first.
pub proof fn lemma_bytes_lt_total(a: Seq<u8>, b: Seq<u8>)
    ensures
        a != b ==> (bytes_lt(a, b) || bytes_lt(b, a)),
        bytes_lt(a, b) ==> !bytes_lt(b, a) && a != b,
{
    if a != b {
        lemma_lt_from_total(a, b, 0);
    }
    if bytes_lt(a, b) {
        lemma_lt_from_asymmetric(a, b, 0);
        lemma_lt_from_irreflexive(a, 0);
    }
}

/// Two strings with the same encoding are the same string.
pub proof fn lemma_encoding_injective(a: Seq<char>, b: Seq<char>)
    requires
        encode_utf8(a) == encode_utf8(b),
    ensures
        a == b,
{
    encode_utf8_decode_utf8(a);
    encode_utf8_decode_utf8(b);
    assert(decode_utf8(encode_utf8(a)) == a);
    assert(decode_utf8(encode_utf8(b)) == b);
}

/// No identifier sorts before itself.
pub proof fn lemma_id_lt_irreflexive(a: Seq<char>)
    ensures
        !id_lt(a, a),
{
    lemma_bytes_lt_irreflexive(encode_utf8(a));
}

/// The order of identifiers is transitive.
pub proof fn lemma_id_lt_transitive(a: Seq<char>, b: Seq<char>, c: Seq<char>)
    requires
        id_lt(a, b),
        id_lt(b, c),
    ensures
        id_lt(a, c),
{
    lemma_bytes_lt_transitive(encode_utf8(a), encode_utf8(b), encode_utf8(c));
}

/// Of two different identifiers exactly one sorts first.
pub proof fn lemma_id_lt_total(a: Seq<char>, b: Seq<char>)
    ensures
        a != b ==> (id_lt(a, b) || id_lt(b, a)),
        id_lt(a, b) ==> !id_lt(b, a) && a != b,
{
    lemma_bytes_lt_total(encode_utf8(a), encode_utf8(b));
    if a != b && encode_utf8(a) == encode_utf8(b) {
        lemma_encoding_injective(a, b);
    }
}

/// How one identifier stands to another.
#[derive(Clone, Copy, Debug, PartialEq, Eq, Structural)]
pub enum Standing {
    Before,
    Same,
    After,
}

/// What `id_order` returns for identifiers `a` and `b`.
pub open spec fn standing_of(a: Seq<char>, b: Seq<char>) -> Standing {
    if a == b {
        Standing::Same
    } else if id_lt(a, b) {
        Standing::Before
    } else {
        Standing::After
    }
}

/// Tells how the byte string `a` stands to `b`.
pub fn bytes_order(a: &[u8], b: &[u8]) -> (r: Standing)
    ensures
        r == Standing::Same <==> a@ == b@,
        r == Standing::Before <==> bytes_lt(a@, b@),
        r == Standing::After <==> bytes_lt(b@, a@),
{
    let mut i: usize = 0;
    while i < a.len() && i < b.len()
        invariant
            agree_below(a@, b@, i as int),
            bytes_lt(a@, b@) == bytes_lt_from(a@, b@, i as int),
            bytes_lt(b@, a@) == bytes_lt_from(b@, a@, i as int),
        decreases a.len() - i,
    {
        if a[i] < b[i] {
            proof {
                lemma_bytes_lt_total(a@, b@);
            }
            return Standing::Before;
        }
        if a[i] > b[i] {
            proof {
                lemma_bytes_lt_total(b@, a@);
            }
            return Standing::After;
        }
        i += 1;
    }
    proof {
        lemma_bytes_lt_total(a@, b@);
        lemma_bytes_lt_total(b@, a@);
    }
    if i < b.len() {
        Standing::Before
    } else if i < a.len() {
        Standing::After
    } else {
        assert(a@ =~= b@);
        Standing::Same
    }
}

/// Tells how the identifier `a` stands to `b`.
pub fn id_order(a: &str, b: &str) -> (r: Standing)
    ensures
        r == standing_of(a@, b@),
{
    proof {
        lemma_id_lt_total(a@, b@);
        lemma_id_lt_total(b@, a@);
        if encode_utf8(a@) == encode_utf8(b@) {
            lemma_encoding_injective(a@, b@);
        }
    }
    bytes_order(a.as_bytes(), b.as_bytes())
}

} // verus!
