//! Byte-level helpers for strings: equality, UTF-8 decoding, and
//! construction of strings from ASCII bytes.

use vstd::prelude::*;
use vstd::utf8::{valid_utf8, encode_utf8, encode_utf8_decode_utf8, decode_utf8_encode_utf8};
use vstd::string::StringSliceAdditionalSpecFns;
use vstd::string::StrSliceExecFns;

verus! {

/// Relies on String::from_utf8: returns the decoded string exactly when the
/// bytes are valid UTF-8.
#[verifier::external_body]
pub fn string_from_utf8(v: Vec<u8>) -> (r: Option<String>)
    ensures
        r is Some <==> valid_utf8(v@),
        r is Some ==> encode_utf8(r->Some_0@) == v@,
{
    String::from_utf8(v).ok()
}

/// Two strings are equal exactly when their UTF-8 byte sequences are.
pub proof fn lemma_views_equal_iff_bytes_equal(a: Seq<char>, b: Seq<char>)
    ensures
        (a == b) <==> (encode_utf8(a) == encode_utf8(b)),
{
    if encode_utf8(a) == encode_utf8(b) {
        encode_utf8_decode_utf8(a);
        encode_utf8_decode_utf8(b);
    }
}

/// Collects the characters of a string into a vector.
pub fn str_chars(s: &str) -> (v: Vec<char>)
    ensures
        v@ == s@,
{
    let n = s.unicode_len();
    let mut v: Vec<char> = Vec::new();
    let mut i: usize = 0;
    while i < n
        invariant
            n == s@.len(),
            i <= n,
            v@ == s@.take(i as int),
        decreases n - i,
    {
        v.push(s.get_char(i));
        proof {
            assert(v@ =~= s@.take(i as int + 1));
        }
        i += 1;
    }
    proof {
        assert(v@ =~= s@);
    }
    v
}

/// Builds a string out of ASCII characters.
pub fn ascii_chars_to_string(v: &Vec<char>) -> (r: String)
    requires
        vstd::utf8::is_ascii_chars(v@),
    ensures
        r@ == v@,
{
    let n = v.len();
    let mut bytes: Vec<u8> = Vec::new();
    let mut i: usize = 0;
    proof {
        vstd::utf8::is_ascii_chars_nat_bound(v@);
    }
    while i < n
        invariant
            n == v@.len(),
            i <= n,
            bytes@.len() == i,
            forall|j: int| 0 <= j < v@.len() ==> (v@[j] as nat) < 128,
            forall|j: int| 0 <= j < i ==> bytes@[j] == v@[j] as u8,
        decreases n - i,
    {
        bytes.push(v[i] as u8);
        i += 1;
    }
    proof {
        vstd::utf8::is_ascii_chars_encode_utf8(v@);
        assert(bytes@ =~= encode_utf8(v@));
        vstd::utf8::encode_utf8_valid_utf8(v@);
    }
    match string_from_utf8(bytes) {
        Some(s) => {
            proof {
                lemma_views_equal_iff_bytes_equal(s@, v@);
            }
            s
        },
        None => {
            proof {
                assert(false);
            }
            String::new()
        },
    }
}

/// String equality, decided on the byte representation.
pub fn str_eq(a: &str, b: &str) -> (r: bool)
    ensures
        r == (a@ == b@),
{
    let ab = a.as_bytes();
    let bb = b.as_bytes();
    proof {
        lemma_views_equal_iff_bytes_equal(a@, b@);
    }
    if ab.len() != bb.len() {
        return false;
    }
    let n = ab.len();
    let mut i: usize = 0;
    while i < n
        invariant
            n == ab@.len() == bb@.len(),
            i <= n,
            ab@ == encode_utf8(a@),
            bb@ == encode_utf8(b@),
            forall|j: int| 0 <= j < i ==> ab@[j] == bb@[j],
        decreases n - i,
    {
        if ab[i] != bb[i] {
            proof {
                lemma_views_equal_iff_bytes_equal(a@, b@);
                assert(ab@[i as int] != bb@[i as int]);
                assert(ab@ != bb@);
            }
            return false;
        }
        i += 1;
    }
    proof {
        assert(ab@ =~= bb@);
    }
    true
}

/// Relies on String's FromIterator: collects characters into a string.
#[verifier::external_body]
pub fn chars_to_string(v: &Vec<char>) -> (r: String)
    ensures
        r@ == v@,
{
    v.iter().collect()
}

/// Strict lexicographic order on byte strings.
pub open spec fn bytes_lt(a: Seq<u8>, b: Seq<u8>) -> bool
    decreases a.len(),
{
    if b.len() == 0 {
        false
    } else if a.len() == 0 {
        true
    } else if a[0] < b[0] {
        true
    } else if a[0] > b[0] {
        false
    } else {
        bytes_lt(a.skip(1), b.skip(1))
    }
}

/// Strict order on strings, by their UTF-8 bytes, as `str`'s own
/// ordering compares them.
pub open spec fn str_lt(a: Seq<char>, b: Seq<char>) -> bool {
    bytes_lt(encode_utf8(a), encode_utf8(b))
}

/// Three-way lexicographic comparison of two strings by bytes.
pub fn str_cmp(a: &str, b: &str) -> (r: crate::decimal::CmpResult)
    ensures
        (r == crate::decimal::CmpResult::Less) == str_lt(a@, b@),
        (r == crate::decimal::CmpResult::Equal) == (a@ == b@),
        (r == crate::decimal::CmpResult::Greater) == str_lt(b@, a@),
{
    let ab = a.as_bytes();
    let bb = b.as_bytes();
    let na = ab.len();
    let nb = bb.len();
    let n = if na < nb { na } else { nb };
    let mut i: usize = 0;
    proof {
        lemma_views_equal_iff_bytes_equal(a@, b@);
        assert(ab@.skip(0) =~= ab@);
        assert(bb@.skip(0) =~= bb@);
    }
    while i < n
        invariant
            n == if na < nb { na as int } else { nb as int },
            na == ab@.len(),
            nb == bb@.len(),
            i <= n,
            ab@ == encode_utf8(a@),
            bb@ == encode_utf8(b@),
            (a@ == b@) <==> (ab@ == bb@),
            forall|j: int| 0 <= j < i ==> ab@[j] == bb@[j],
            bytes_lt(ab@, bb@) == bytes_lt(ab@.skip(i as int), bb@.skip(i as int)),
            bytes_lt(bb@, ab@) == bytes_lt(bb@.skip(i as int), ab@.skip(i as int)),
        decreases n - i,
    {
        let ca = ab[i];
        let cb = bb[i];
        if ca < cb {
            proof {
                assert(bytes_lt(ab@.skip(i as int), bb@.skip(i as int)));
                assert(!bytes_lt(bb@.skip(i as int), ab@.skip(i as int)));
                assert(ab@[i as int] != bb@[i as int]);
                assert(ab@ != bb@);
            }
            return crate::decimal::CmpResult::Less;
        }
        if ca > cb {
            proof {
                assert(bytes_lt(bb@.skip(i as int), ab@.skip(i as int)));
                assert(!bytes_lt(ab@.skip(i as int), bb@.skip(i as int)));
                assert(ab@[i as int] != bb@[i as int]);
                assert(ab@ != bb@);
            }
            return crate::decimal::CmpResult::Greater;
        }
        proof {
            assert(ab@.skip(i as int).skip(1) =~= ab@.skip(i + 1));
            assert(bb@.skip(i as int).skip(1) =~= bb@.skip(i + 1));
        }
        i += 1;
    }
    proof {
        assert(ab@.skip(i as int).len() == na - i);
        assert(bb@.skip(i as int).len() == nb - i);
    }
    if na < nb {
        proof {
            assert(bytes_lt(ab@.skip(i as int), bb@.skip(i as int)));
            assert(!bytes_lt(bb@.skip(i as int), ab@.skip(i as int)));
            assert(ab@.len() != bb@.len());
        }
        crate::decimal::CmpResult::Less
    } else if nb < na {
        proof {
            assert(bytes_lt(bb@.skip(i as int), ab@.skip(i as int)));
            assert(!bytes_lt(ab@.skip(i as int), bb@.skip(i as int)));
            assert(ab@.len() != bb@.len());
        }
        crate::decimal::CmpResult::Greater
    } else {
        proof {
            assert(ab@ =~= bb@);
            assert(!bytes_lt(ab@.skip(i as int), bb@.skip(i as int)));
            assert(!bytes_lt(bb@.skip(i as int), ab@.skip(i as int)));
        }
        crate::decimal::CmpResult::Equal
    }
}

} // verus!
