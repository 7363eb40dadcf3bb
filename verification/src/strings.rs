//! Decoding of raw window property bytes into strings: the windowing
//! protocol hands back byte arrays that are cut at the first NUL and then
//! decoded as UTF-8, replacing invalid sequences.

use vstd::prelude::*;

verus! {

/// What `String::from_utf8_lossy` returns for the given bytes; the result
/// depends on the bytes alone.
pub uninterp spec fn lossy_utf8(bytes: Seq<u8>) -> Seq<char>;

/// Index of the first NUL byte, or the length if there is none.
pub open spec fn first_nul(s: Seq<u8>) -> int
    decreases s.len(),
{
    if s.len() == 0 {
        0
    } else if s[0] == 0 {
        0
    } else {
        1 + first_nul(s.drop_first())
    }
}

pub proof fn lemma_first_nul(s: Seq<u8>)
    ensures
        0 <= first_nul(s) <= s.len(),
        forall|i: int| 0 <= i < first_nul(s) ==> s[i] != 0,
        first_nul(s) < s.len() ==> s[first_nul(s)] == 0,
    decreases s.len(),
{
    if s.len() > 0 && s[0] != 0 {
        lemma_first_nul(s.drop_first());
        assert forall|i: int| 0 <= i < first_nul(s) implies s[i] != 0 by {
            if i > 0 {
                assert(s.drop_first()[i - 1] == s[i]);
                assert(s.drop_first()[i - 1] != 0);
            }
        }
        if first_nul(s) < s.len() {
            assert(s.drop_first()[first_nul(s.drop_first())] == s[first_nul(s)]);
        }
    }
}

/// Relies on `String::from_utf8_lossy`: decodes the first `end` bytes as
/// UTF-8 with replacement characters; the result depends on those bytes
/// alone. An empty input gives an empty string.
#[verifier::external_body]
fn utf8_lossy_prefix(bytes: &Vec<u8>, end: usize) -> (r: String)
    requires
        end <= bytes@.len(),
    ensures
        r@ == lossy_utf8(bytes@.subrange(0, end as int)),
        end == 0 ==> r@.len() == 0,
{
    String::from_utf8_lossy(&bytes[..end]).into_owned()
}

/// Decode a raw property value: cut at the first NUL byte, then decode the
/// bytes before it as UTF-8, with replacement characters for invalid runs.
pub fn property_string(bytes: &Vec<u8>) -> (r: String)
    ensures
        r@ == lossy_utf8(bytes@.subrange(0, first_nul(bytes@))),
{
    proof {
        lemma_first_nul(bytes@);
    }
    let mut i: usize = 0;
    while i < bytes.len()
        invariant
            i <= bytes@.len(),
            forall|j: int| 0 <= j < i ==> bytes@[j] != 0,
        decreases bytes@.len() - i,
    {
        if bytes[i] == 0 {
            proof {
                lemma_first_nul_at(bytes@, i as int);
            }
            return utf8_lossy_prefix(bytes, i);
        }
        i += 1;
    }
    proof {
        lemma_first_nul_at(bytes@, bytes@.len() as int);
    }
    utf8_lossy_prefix(bytes, bytes.len())
}

/// If everything before `i` is non-NUL and `i` is a NUL or the end, then
/// `i` is exactly `first_nul`.
proof fn lemma_first_nul_at(s: Seq<u8>, i: int)
    requires
        0 <= i <= s.len(),
        forall|j: int| 0 <= j < i ==> s[j] != 0,
        i < s.len() ==> s[i] == 0,
    ensures
        first_nul(s) == i,
    decreases s.len(),
{
    if s.len() > 0 && s[0] != 0 {
        assert(i > 0);
        assert(forall|j: int| 0 <= j < s.drop_first().len() ==> s.drop_first()[j] == s[j + 1]);
        lemma_first_nul_at(s.drop_first(), i - 1);
    }
}

} // verus!
