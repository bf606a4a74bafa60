//! Byte-wise ordering of names: the order in which a sorted set of strings
//! lists them (UTF-8 bytes compared lexicographically, a prefix first).

use vstd::prelude::*;
use vstd::string::StringSliceAdditionalSpecFns;
use vstd::utf8::{encode_utf8, decode_utf8, encode_utf8_decode_utf8};

verus! {

/// The UTF-8 bytes of a name.
pub open spec fn name_bytes(s: Seq<char>) -> Seq<u8> {
    encode_utf8(s)
}

/// `a` sorts before `b` when compared from position `i` on (the first `i`
/// bytes being equal).
pub open spec fn bytes_less_from(a: Seq<u8>, b: Seq<u8>, i: nat) -> bool
    decreases a.len() - i,
{
    if i >= a.len() {
        i < b.len()
    } else if i >= b.len() {
        false
    } else if a[i as int] != b[i as int] {
        a[i as int] < b[i as int]
    } else {
        bytes_less_from(a, b, i + 1)
    }
}

/// Lexicographic byte order: `a` sorts strictly before `b`.
pub open spec fn bytes_less(a: Seq<u8>, b: Seq<u8>) -> bool {
    bytes_less_from(a, b, 0)
}

/// Names sort by the bytes of their UTF-8 encoding.
pub open spec fn name_less(a: Seq<char>, b: Seq<char>) -> bool {
    bytes_less(name_bytes(a), name_bytes(b))
}

/// `s` lists names in strictly increasing byte order.
pub open spec fn strictly_sorted(s: Seq<Seq<char>>) -> bool {
    forall|i: int, j: int| 0 <= i < j < s.len() ==> name_less(#[trigger] s[i], #[trigger] s[j])
}

proof fn lemma_less_from_irrefl(a: Seq<u8>, i: nat)
    ensures
        !bytes_less_from(a, a, i),
    decreases a.len() - i,
{
    if i < a.len() {
        lemma_less_from_irrefl(a, i + 1);
    }
}

proof fn lemma_less_from_trans(a: Seq<u8>, b: Seq<u8>, c: Seq<u8>, i: nat)
    requires
        bytes_less_from(a, b, i),
        bytes_less_from(b, c, i),
    ensures
        bytes_less_from(a, c, i),
    decreases a.len() - i,
{
    if i < a.len() && i < b.len() && i < c.len() && a[i as int] == b[i as int] && b[i as int]
        == c[i as int] {
        lemma_less_from_trans(a, b, c, i + 1);
    }
}

proof fn lemma_less_from_total(a: Seq<u8>, b: Seq<u8>, i: nat)
    requires
        a.subrange(i as int, a.len() as int) != b.subrange(i as int, b.len() as int),
        i <= a.len(),
        i <= b.len(),
    ensures
        bytes_less_from(a, b, i) || bytes_less_from(b, a, i),
    decreases a.len() - i,
{
    if i < a.len() && i < b.len() && a[i as int] == b[i as int] {
        if a.subrange(i + 1int, a.len() as int) == b.subrange(i + 1int, b.len() as int) {
            assert(a.subrange(i as int, a.len() as int) =~= seq![a[i as int]] + a.subrange(
                i + 1int,
                a.len() as int,
            ));
            assert(b.subrange(i as int, b.len() as int) =~= seq![b[i as int]] + b.subrange(
                i + 1int,
                b.len() as int,
            ));
        }
        lemma_less_from_total(a, b, i + 1);
    } else if i >= a.len() && i >= b.len() {
        assert(a.subrange(i as int, a.len() as int) =~= b.subrange(i as int, b.len() as int));
    }
}

/// No name sorts before itself.
pub proof fn lemma_name_less_irrefl(a: Seq<char>)
    ensures
        !name_less(a, a),
{
    lemma_less_from_irrefl(name_bytes(a), 0);
}

/// The byte order is transitive.
pub proof fn lemma_name_less_trans(a: Seq<char>, b: Seq<char>, c: Seq<char>)
    requires
        name_less(a, b),
        name_less(b, c),
    ensures
        name_less(a, c),
{
    lemma_less_from_trans(name_bytes(a), name_bytes(b), name_bytes(c), 0);
}

/// Distinct names are ordered one way or the other.
pub proof fn lemma_name_less_total(a: Seq<char>, b: Seq<char>)
    requires
        a != b,
    ensures
        name_less(a, b) || name_less(b, a),
{
    let x = name_bytes(a);
    let y = name_bytes(b);
    if x == y {
        encode_utf8_decode_utf8(a);
        encode_utf8_decode_utf8(b);
    }
    assert(x.subrange(0, x.len() as int) =~= x);
    assert(y.subrange(0, y.len() as int) =~= y);
    lemma_less_from_total(x, y, 0);
}

/// Strict order implies the names differ.
pub proof fn lemma_name_less_distinct(a: Seq<char>, b: Seq<char>)
    requires
        name_less(a, b),
    ensures
        a != b,
{
    lemma_name_less_irrefl(a);
}

/// Compare two names by their UTF-8 bytes: `a` sorts strictly before `b`.
pub fn str_less(a: &str, b: &str) -> (r: bool)
    ensures
        r == name_less(a@, b@),
{
    let x = a.as_bytes();
    let y = b.as_bytes();
    let mut i: usize = 0;
    while i < x.len() && i < y.len() && x[i] == y[i]
        invariant
            x@ == name_bytes(a@),
            y@ == name_bytes(b@),
            i <= x.len(),
            i <= y.len(),
            bytes_less_from(x@, y@, 0) == bytes_less_from(x@, y@, i as nat),
        decreases x.len() - i,
    {
        i = i + 1;
    }
    if i >= x.len() {
        i < y.len()
    } else if i >= y.len() {
        false
    } else {
        x[i] < y[i]
    }
}

/// Two names are equal.
pub fn str_equal(a: &str, b: &str) -> (r: bool)
    ensures
        r == (a@ == b@),
{
    let x = a.as_bytes();
    let y = b.as_bytes();
    if x.len() != y.len() {
        return false;
    }
    let mut i: usize = 0;
    while i < x.len()
        invariant
            x@ == name_bytes(a@),
            y@ == name_bytes(b@),
            x.len() == y.len(),
            i <= x.len(),
            forall|j: int| 0 <= j < i ==> x@[j] == y@[j],
        decreases x.len() - i,
    {
        if x[i] != y[i] {
            return false;
        }
        i = i + 1;
    }
    proof {
        assert(x@ =~= y@);
        encode_utf8_decode_utf8(a@);
        encode_utf8_decode_utf8(b@);
    }
    true
}

} // verus!
