//! Which user a request comes from: the id that its cookie carries, or a
//! new one drawn at random.

use vstd::prelude::*;
use vstd::string::StringSliceAdditionalSpecFns;

verus! {

/// The user of a request.
#[derive(Clone, Copy, Debug, PartialEq, Eq, Structural)]
pub struct Identity {
    pub user_id: u32,
    /// Whether the id was drawn for this request, so that the client does
    /// not know it yet and has to be told.
    pub issued: bool,
}

/// Whether `b` is one of the ASCII digits `0` to `9`.
pub open spec fn is_digit(b: u8) -> bool {
    48 <= b <= 57
}

/// Whether `s` consists of ASCII digits only.
pub open spec fn all_digits(s: Seq<u8>) -> bool {
    forall|i: int| 0 <= i < s.len() ==> is_digit(#[trigger] s[i])
}

/// The number that the decimal digits `s` stand for.
pub open spec fn digits_value(s: Seq<u8>) -> nat
    decreases s.len(),
{
    if s.len() == 0 {
        0
    } else {
        (10 * digits_value(s.drop_last()) + (s.last() - 48)) as nat
    }
}

/// `text` without a leading `+`.
pub open spec fn unsigned(text: Seq<u8>) -> Seq<u8> {
    if text.len() > 0 && text[0] == 43 {
        text.drop_first()
    } else {
        text
    }
}

/// The user id that `text` stands for: an optional `+` and then one or
/// more decimal digits, nothing before or after them, whose value fits 32
/// bits. Any other text stands for none.
pub open spec fn parsed_user_id(text: Seq<u8>) -> Option<u32> {
    let digits = unsigned(text);
    if digits.len() > 0 && all_digits(digits) && digits_value(digits) <= u32::MAX {
        Some(digits_value(digits) as u32)
    } else {
        None
    }
}

/// The user id that a request claims by its cookie, if it has one.
pub open spec fn claimed_user_id(cookie: Option<&str>) -> Option<u32> {
    match cookie {
        Some(text) => parsed_user_id(text.spec_bytes()),
        None => None,
    }
}

/// More digits never make a smaller number.
proof fn lemma_value_grows(s: Seq<u8>, k: int)
    requires
        all_digits(s),
        0 <= k <= s.len(),
    ensures
        digits_value(s.subrange(0, k)) <= digits_value(s),
    decreases s.len(),
{
    if k == s.len() {
        assert(s.subrange(0, k) =~= s);
    } else {
        assert(all_digits(s.drop_last())) by {
            assert forall|i: int| 0 <= i < s.drop_last().len() implies is_digit(
                #[trigger] s.drop_last()[i],
            ) by {
                assert(is_digit(s[i]));
            }
        }
        lemma_value_grows(s.drop_last(), k);
        assert(s.drop_last().subrange(0, k) =~= s.subrange(0, k));
        assert(is_digit(s[s.len() - 1]));
    }
}

/// Reads a user id from the text of a cookie.
pub fn parse_user_id(text: &str) -> (id: Option<u32>)
    ensures
        id == parsed_user_id(text.spec_bytes()),
{
    let bytes = text.as_bytes();
    let n: usize = bytes.len();
    let start: usize = if n > 0 && bytes[0] == 43 {
        1
    } else {
        0
    };
    let ghost digits = unsigned(bytes@);
    assert(digits =~= bytes@.subrange(start as int, n as int));
    if start == n {
        return None;
    }
    let mut value: u64 = 0;
    let mut i: usize = start;
    while i < n
        invariant
            start <= i <= n,
            n == bytes@.len(),
            bytes@ == text.spec_bytes(),
            digits == unsigned(bytes@),
            digits == bytes@.subrange(start as int, n as int),
            all_digits(digits.subrange(0, i - start)),
            value == digits_value(digits.subrange(0, i - start)),
            value <= u32::MAX,
        decreases n - i,
    {
        let b: u8 = bytes[i];
        let ghost seen = digits.subrange(0, i - start);
        let ghost next = digits.subrange(0, i - start + 1);
        assert(digits[i - start] == b);
        if b < 48 || b > 57 {
            assert(!all_digits(digits)) by {
                assert(!is_digit(digits[i - start]));
            }
            return None;
        }
        assert(next.drop_last() =~= seen);
        assert(next.last() == b);
        assert(all_digits(next)) by {
            assert forall|j: int| 0 <= j < next.len() implies is_digit(#[trigger] next[j]) by {
                if j < seen.len() {
                    assert(is_digit(seen[j]));
                }
            }
        }
        let digit: u64 = (b - 48) as u64;
        let grown: u64 = value * 10 + digit;
        assert(grown == digits_value(next));
        if grown > 0xffff_ffff {
            proof {
                if all_digits(digits) {
                    lemma_value_grows(digits, i - start + 1);
                }
            }
            return None;
        }
        value = grown;
        i = i + 1;
    }
    assert(digits.subrange(0, n - start) =~= digits);
    Some(value as u32)
}

/// A number drawn by `rand::random` from the generator of the calling
/// thread. Nothing is claimed of the number. The generator takes its seed
/// from the operating system, on its first use in a thread and again
/// after every reseeding interval, and panics where that source fails.
#[verifier::external_body]
fn fresh_user_id() -> u32 {
    rand::random::<u32>()
}

/// The identity of a user who brought no usable cookie: the number drawn
/// for them, which the client has yet to be told.
pub fn issue(drawn: u32) -> (who: Identity)
    ensures
        who == (Identity { user_id: drawn, issued: true }),
{
    Identity { user_id: drawn, issued: true }
}

/// The user of a request whose cookie holds `cookie`, if it came with one.
/// A cookie that reads as a user id is believed; without one a number is
/// drawn and [`issue`]d, and the caller has to hand it to the client.
pub fn user_id(cookie: Option<&str>) -> (who: Identity)
    ensures
        match claimed_user_id(cookie) {
            Some(id) => who == (Identity { user_id: id, issued: false }),
            None => who.issued,
        },
{
    let claimed: Option<u32> = match cookie {
        Some(text) => parse_user_id(text),
        None => None,
    };
    match claimed {
        Some(id) => Identity { user_id: id, issued: false },
        None => issue(fresh_user_id()),
    }
}

} // verus!
