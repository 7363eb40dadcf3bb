//! Shortening of window titles to a terminal column budget: characters are
//! popped off the end until the string's display width fits the target.

use vstd::prelude::*;
use vstd::pervasive::unreached;
use vstd::string::StrSliceExecFns;

verus! {

/// What `unicode_width::UnicodeWidthChar::width` returns for a character:
/// its display width in terminal columns, `None` for a control character.
/// The result depends on the character alone.
pub uninterp spec fn char_display_width(c: char) -> Option<int>;

/// Display width of a whole string: the sum of its characters' widths, or
/// `None` if any character has no defined width.
pub open spec fn display_width(s: Seq<char>) -> Option<int>
    decreases s.len(),
{
    if s.len() == 0 {
        Some(0int)
    } else {
        match char_display_width(s[0]) {
            Some(w) => match display_width(s.drop_first()) {
                Some(r) => Some(w + r),
                None => None,
            },
            None => None,
        }
    }
}

/// The string's width is defined and within the column target.
pub open spec fn fits(s: Seq<char>, target: int) -> bool {
    match display_width(s) {
        Some(w) => w <= target,
        None => false,
    }
}

/// Relies on `unicode_width::UnicodeWidthChar::width`: the display width of
/// one character in terminal columns, `None` for control characters; a pure
/// table lookup that depends on the character alone.
#[verifier::external_body]
fn char_width(c: char) -> (r: Option<usize>)
    ensures
        r matches Some(w) ==> char_display_width(c) == Some(w as int),
        r is None ==> char_display_width(c) is None,
{
    unicode_width::UnicodeWidthChar::width(c)
}

pub open spec fn width_plus(a: int, o: Option<int>) -> Option<int> {
    match o {
        Some(r) => Some(a + r),
        None => None,
    }
}

/// If a string's width is defined, so is every character's width.
pub proof fn lemma_width_some_chars(s: Seq<char>)
    requires
        display_width(s) is Some,
    ensures
        forall|i: int| 0 <= i < s.len() ==> (#[trigger] char_display_width(s[i])) is Some,
    decreases s.len(),
{
    if s.len() > 0 {
        lemma_width_some_chars(s.drop_first());
        assert forall|i: int|
            0 <= i < s.len() implies (#[trigger] char_display_width(s[i])) is Some by {
            if i > 0 {
                assert(s.drop_first()[i - 1] == s[i]);
                assert(char_display_width(s.drop_first()[i - 1]) is Some);
            }
        }
    }
}

/// If every character's width is defined, so is the string's width.
pub proof fn lemma_chars_some_width(s: Seq<char>)
    requires
        forall|i: int| 0 <= i < s.len() ==> (#[trigger] char_display_width(s[i])) is Some,
    ensures
        display_width(s) is Some,
    decreases s.len(),
{
    if s.len() > 0 {
        assert forall|i: int|
            0 <= i < s.drop_first().len() implies (#[trigger] char_display_width(
            s.drop_first()[i],
        )) is Some by {
            assert(s.drop_first()[i] == s[i + 1]);
        }
        lemma_chars_some_width(s.drop_first());
    }
}

/// Every prefix of a string of defined width has a defined width.
pub proof fn lemma_prefix_width_defined(s: Seq<char>, n: int)
    requires
        display_width(s) is Some,
        0 <= n <= s.len(),
    ensures
        display_width(s.subrange(0, n)) is Some,
{
    lemma_width_some_chars(s);
    assert forall|i: int|
        0 <= i < s.subrange(0, n).len() implies (#[trigger] char_display_width(
        s.subrange(0, n)[i],
    )) is Some by {
        assert(s.subrange(0, n)[i] == s[i]);
        assert(char_display_width(s[i]) is Some);
    }
    lemma_chars_some_width(s.subrange(0, n));
}

/// Display width of a string, computed character by character.
pub fn str_display_width(s: &str) -> (r: Option<u128>)
    ensures
        r matches Some(w) ==> display_width(s@) == Some(w as int),
        r is None ==> display_width(s@) is None,
{
    let n = s.unicode_len();
    let mut acc: u128 = 0;
    let mut i: usize = 0;
    proof {
        assert(s@.skip(0) =~= s@);
    }
    while i < n
        invariant
            n == s@.len(),
            i <= n,
            acc <= (i as int) * (usize::MAX as int),
            display_width(s@) == width_plus(acc as int, display_width(s@.skip(i as int))),
        decreases n - i,
    {
        let c = s.get_char(i);
        proof {
            assert(s@.skip(i as int)[0] == s@[i as int]);
            assert(s@.skip(i as int).drop_first() =~= s@.skip(i as int + 1));
        }
        match char_width(c) {
            Some(w) => {
                proof {
                    assert(acc + w <= (i as int) * (usize::MAX as int) + (usize::MAX as int));
                    assert((i as int) * (usize::MAX as int) + (usize::MAX as int) == (i as int
                        + 1) * (usize::MAX as int)) by (nonlinear_arith);
                    assert((i as int + 1) * (usize::MAX as int) <= (usize::MAX as int) * (
                    usize::MAX as int)) by (nonlinear_arith)
                        requires
                            0 <= i as int + 1 <= usize::MAX as int,
                    ;
                    assert((usize::MAX as int) * (usize::MAX as int) < u128::MAX as int);
                    assert(acc + w <= u128::MAX as int);
                }
                acc = acc + (w as u128);
                i += 1;
            },
            None => {
                return None;
            },
        }
    }
    proof {
        assert(s@.skip(n as int) =~= Seq::<char>::empty());
    }
    Some(acc)
}

/// Drop the final character of a string; an empty string is returned as is.
pub fn pop_char<'a>(val: &'a str) -> (r: &'a str)
    ensures
        val@.len() == 0 ==> r@ == val@,
        val@.len() > 0 ==> r@ == val@.drop_last(),
{
    if val.is_empty() {
        return val;
    }
    let n = val.unicode_len();
    let r = val.substring_char(0, n - 1);
    proof {
        assert(r@ =~= val@.drop_last());
    }
    r
}

/// Pop characters off the end of `val` until its display width is at most
/// `target` columns. The result is the longest prefix that fits; in
/// particular, a string that already fits comes back whole.
pub fn shorten_string_to<'a>(val: &'a str, target: usize) -> (r: &'a str)
    requires
        display_width(val@) is Some,
    ensures
        r@.len() <= val@.len(),
        r@ == val@.subrange(0, r@.len() as int),
        fits(r@, target as int),
        forall|m: int|
            r@.len() < m <= val@.len() ==> !fits(#[trigger] val@.subrange(0, m), target as int),
{
    let mut cur: &str = val;
    proof {
        assert(cur@ =~= val@.subrange(0, cur@.len() as int));
    }
    loop
        invariant
            display_width(val@) is Some,
            cur@ == val@.subrange(0, cur@.len() as int),
            cur@.len() <= val@.len(),
            forall|m: int|
                cur@.len() < m <= val@.len() ==> !fits(
                    #[trigger] val@.subrange(0, m),
                    target as int,
                ),
        decreases cur@.len(),
    {
        proof {
            lemma_prefix_width_defined(val@, cur@.len() as int);
            assert(display_width(cur@) is Some);
        }
        if cur.is_empty() {
            return cur;
        }
        match str_display_width(cur) {
            Some(w) => {
                if w <= target as u128 {
                    return cur;
                }
                let ghost len0 = cur@.len() as int;
                cur = pop_char(cur);
                proof {
                    assert(cur@ =~= val@.subrange(0, len0).subrange(0, len0 - 1));
                    assert(val@.subrange(0, len0).subrange(0, len0 - 1) =~= val@.subrange(
                        0,
                        len0 - 1,
                    ));
                }
            },
            None => {
                return unreached();
            },
        }
    }
}

/// Like `shorten_string_to`, but reports `None` instead of requiring that
/// every character's display width is defined.
pub fn try_shorten_string_to<'a>(val: &'a str, target: usize) -> (r: Option<&'a str>)
    ensures
        match r {
            Some(out) => {
                &&& display_width(val@) is Some
                &&& out@.len() <= val@.len()
                &&& out@ == val@.subrange(0, out@.len() as int)
                &&& fits(out@, target as int)
                &&& forall|m: int|
                    out@.len() < m <= val@.len() ==> !fits(
                        #[trigger] val@.subrange(0, m),
                        target as int,
                    )
            },
            None => display_width(val@) is None,
        },
{
    match str_display_width(val) {
        Some(_) => Some(shorten_string_to(val, target)),
        None => None,
    }
}

} // verus!
