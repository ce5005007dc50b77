//! The order in which sources are listed: that of `str`, byte by byte over the
//! UTF-8 encoding, which is also the order of the code points.

use vstd::prelude::*;
use vstd::string::StringSliceAdditionalSpecFns;
use vstd::utf8::{encode_utf8, encode_utf8_decode_utf8};

verus! {

/// Whether `a` comes before `b`, given that the two agree below index `from`:
/// at the first index where they differ `a` has the smaller byte, or `a` ends
/// there and `b` goes on.
pub open spec fn bytes_before_from(a: Seq<u8>, b: Seq<u8>, from: int) -> bool
    decreases a.len() - from,
{
    if from >= b.len() {
        false
    } else if from >= a.len() {
        true
    } else if a[from] != b[from] {
        a[from] < b[from]
    } else {
        bytes_before_from(a, b, from + 1)
    }
}

/// Whether `a` comes strictly before `b` in lexicographic order.
pub open spec fn bytes_before(a: Seq<u8>, b: Seq<u8>) -> bool {
    bytes_before_from(a, b, 0)
}

/// Whether the source `a` is listed strictly before the source `b`.
pub open spec fn key_before(a: Seq<char>, b: Seq<char>) -> bool {
    bytes_before(encode_utf8(a), encode_utf8(b))
}

/// Whether `a` and `b` hold the same bytes below index `upto`.
pub open spec fn agree_below(a: Seq<u8>, b: Seq<u8>, upto: int) -> bool {
    &&& upto <= a.len()
    &&& upto <= b.len()
    &&& forall|k: int| 0 <= k < upto ==> a[k] == b[k]
}

/// A common prefix decides nothing: the order is that of what follows it.
proof fn lemma_skip_common_prefix(a: Seq<u8>, b: Seq<u8>, from: int, upto: int)
    requires
        0 <= from <= upto,
        agree_below(a, b, upto),
    ensures
        bytes_before_from(a, b, from) == bytes_before_from(a, b, upto),
    decreases upto - from,
{
    if from < upto {
        lemma_skip_common_prefix(a, b, from + 1, upto);
    }
}

/// Nothing comes before itself.
proof fn lemma_before_irreflexive(a: Seq<u8>)
    ensures
        !bytes_before(a, a),
{
    lemma_skip_common_prefix(a, a, 0, a.len() as int);
}

/// Of two different byte strings one comes before the other.
proof fn lemma_before_total(a: Seq<u8>, b: Seq<u8>, from: int)
    requires
        0 <= from,
        agree_below(a, b, from),
        !bytes_before_from(a, b, from),
        !bytes_before_from(b, a, from),
    ensures
        a == b,
    decreases a.len() - from,
{
    if from >= a.len() || from >= b.len() {
        assert(a =~= b);
    } else {
        lemma_before_total(a, b, from + 1);
    }
}

/// What comes before something that comes before `c` comes before `c`.
proof fn lemma_before_transitive(a: Seq<u8>, b: Seq<u8>, c: Seq<u8>, from: int)
    requires
        0 <= from,
        agree_below(a, b, from),
        agree_below(b, c, from),
        bytes_before_from(a, b, from),
        bytes_before_from(b, c, from),
    ensures
        bytes_before_from(a, c, from),
    decreases a.len() - from,
{
    if from < a.len() && a[from] == b[from] && b[from] == c[from] {
        lemma_before_transitive(a, b, c, from + 1);
    }
}

/// The order of sources is a strict total order on their names.
pub proof fn lemma_key_order(a: Seq<char>, b: Seq<char>, c: Seq<char>)
    ensures
        !key_before(a, a),
        key_before(a, b) && key_before(b, c) ==> key_before(a, c),
        key_before(a, b) ==> !key_before(b, a),
        a != b ==> key_before(a, b) || key_before(b, a),
{
    let (x, y, z) = (encode_utf8(a), encode_utf8(b), encode_utf8(c));
    lemma_before_irreflexive(x);
    if key_before(a, b) && key_before(b, c) {
        lemma_before_transitive(x, y, z, 0);
    }
    if key_before(a, b) && key_before(b, a) {
        lemma_before_transitive(x, y, x, 0);
    }
    if !key_before(a, b) && !key_before(b, a) {
        lemma_before_total(x, y, 0);
        encode_utf8_decode_utf8(a);
        encode_utf8_decode_utf8(b);
    }
}

/// How one source stands to another in the listing.
#[derive(Debug, Clone, Copy, PartialEq, Eq, Structural)]
pub enum KeyOrder {
    /// The first is listed before the second.
    Before,
    /// The two are the same source.
    Same,
    /// The first is listed after the second.
    After,
}

/// Compares two sources by name.
pub fn key_order(a: &str, b: &str) -> (order: KeyOrder)
    ensures
        order == KeyOrder::Before <==> key_before(a@, b@),
        order == KeyOrder::Same <==> a@ == b@,
        order == KeyOrder::After <==> key_before(b@, a@),
{
    let x = a.as_bytes();
    let y = b.as_bytes();
    proof {
        lemma_key_order(a@, b@, a@);
    }
    let mut i: usize = 0;
    while i < x.len() && i < y.len()
        invariant
            x@ == encode_utf8(a@),
            y@ == encode_utf8(b@),
            agree_below(x@, y@, i as int),
        decreases x.len() - i,
    {
        if x[i] != y[i] {
            proof {
                lemma_skip_common_prefix(x@, y@, 0, i as int);
                lemma_skip_common_prefix(y@, x@, 0, i as int);
                assert(a@ != b@);
            }
            return if x[i] < y[i] {
                KeyOrder::Before
            } else {
                KeyOrder::After
            };
        }
        i = i + 1;
    }
    proof {
        lemma_skip_common_prefix(x@, y@, 0, i as int);
        lemma_skip_common_prefix(y@, x@, 0, i as int);
    }
    if i < y.len() {
        KeyOrder::Before
    } else if i < x.len() {
        KeyOrder::After
    } else {
        proof {
            assert(x@ =~= y@);
            encode_utf8_decode_utf8(a@);
            encode_utf8_decode_utf8(b@);
        }
        KeyOrder::Same
    }
}

} // verus!
