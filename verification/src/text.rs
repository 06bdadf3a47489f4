//! Small verified text utilities shared by the codec, the capture step and
//! the registry path rules.

use vstd::prelude::*;

verus! {

use vstd::string::StrSliceExecFns;
use vstd::string::StringSliceAdditionalSpecFns;
use vstd::utf8::decode_utf8;
use vstd::utf8::encode_utf8;
use vstd::utf8::valid_utf8;

/// Number of bytes in the UTF-8 encoding of `s`.
pub fn str_byte_len(s: &str) -> (n: usize)
    ensures
        n == encode_utf8(s@).len(),
{
    s.as_bytes().len()
}

/// Relies on `String::from_utf8`: returns the decoded string when the bytes
/// are valid UTF-8 and `None` exactly when they are not.
#[verifier::external_body]
pub fn utf8_to_string(bytes: &Vec<u8>) -> (r: Option<String>)
    ensures
        match r {
            Some(s) => valid_utf8(bytes@) && s@ == decode_utf8(bytes@),
            None => !valid_utf8(bytes@),
        },
{
    String::from_utf8(bytes.clone()).ok()
}

/// Copy of the byte vector, element by element.
pub fn copy_bytes(b: &Vec<u8>) -> (r: Vec<u8>)
    ensures
        r@ == b@,
{
    let mut r: Vec<u8> = Vec::new();
    let mut i: usize = 0;
    while i < b.len()
        invariant
            i <= b@.len(),
            r@ == b@.subrange(0, i as int),
        decreases b@.len() - i,
    {
        r.push(b[i]);
        i = i + 1;
    }
    assert(r@ == b@);
    r
}

/// Append every byte of `src` to `dst`.
pub fn append_bytes(dst: &mut Vec<u8>, src: &Vec<u8>)
    ensures
        final(dst)@ == old(dst)@ + src@,
{
    let mut i: usize = 0;
    while i < src.len()
        invariant
            i <= src@.len(),
            dst@ == old(dst)@ + src@.subrange(0, i as int),
        decreases src@.len() - i,
    {
        dst.push(src[i]);
        i = i + 1;
    }
    assert(dst@ == old(dst)@ + src@);
}

/// True when `s` ends with `suffix`.
pub open spec fn spec_ends_with(s: Seq<char>, suffix: Seq<char>) -> bool {
    s.len() >= suffix.len() && s.subrange(s.len() - suffix.len(), s.len() as int) == suffix
}

/// Character-wise suffix test.
pub fn str_ends_with(s: &str, suffix: &str) -> (r: bool)
    ensures
        r == spec_ends_with(s@, suffix@),
{
    let n: usize = s.unicode_len();
    let m: usize = suffix.unicode_len();
    if n < m {
        assert(!spec_ends_with(s@, suffix@));
        return false;
    }
    let mut i: usize = 0;
    while i < m
        invariant
            n == s@.len(),
            m == suffix@.len(),
            m <= n,
            i <= m,
            forall|j: int| 0 <= j < i ==> s@[n - m + j] == suffix@[j],
        decreases m - i,
    {
        if s.get_char(n - m + i) != suffix.get_char(i) {
            assert(s@[n - m + i] != suffix@[i as int]);
            assert(!spec_ends_with(s@, suffix@)) by {
                if spec_ends_with(s@, suffix@) {
                    assert(s@.subrange(s@.len() - suffix@.len(), s@.len() as int)[i as int]
                        == suffix@[i as int]);
                }
            }
            return false;
        }
        i = i + 1;
    }
    assert(spec_ends_with(s@, suffix@)) by {
        let sub = s@.subrange(s@.len() - suffix@.len(), s@.len() as int);
        assert(forall|j: int| 0 <= j < m ==> sub[j] == suffix@[j]);
        assert(sub =~= suffix@);
    }
    true
}

} // verus!
