//! Random 128-bit identifiers and their text form.

use uuid::Uuid;
use vstd::prelude::*;

verus! {

/// 16 to the power `e`.
pub open spec fn pow16(e: nat) -> nat
    decreases e,
{
    if e == 0 {
        1
    } else {
        16 * pow16((e - 1) as nat)
    }
}

/// The lower-case hexadecimal digit for a number below 16.
pub open spec fn hex_digit(n: nat) -> char {
    if n < 10 {
        ((48 + n) as u8) as char
    } else {
        ((87 + n) as u8) as char
    }
}

/// The `k`-th of the 32 hexadecimal digits of `value`, most significant first.
pub open spec fn nibble(value: u128, k: int) -> nat {
    ((value as nat) / pow16((31 - k) as nat)) % 16
}

/// How many of the four hyphens stand before position `i` of the text form.
pub open spec fn hyphens_before(i: int) -> int {
    if i < 8 {
        0
    } else if i < 13 {
        1
    } else if i < 18 {
        2
    } else if i < 23 {
        3
    } else {
        4
    }
}

/// The text form of an identifier: its 32 hexadecimal digits in lower case,
/// in groups of 8, 4, 4, 4 and 12 with a hyphen between two groups.
pub open spec fn hyphenated(value: u128) -> Seq<char> {
    Seq::new(
        36,
        |i: int|
            if i == 8 || i == 13 || i == 18 || i == 23 {
                '-'
            } else {
                hex_digit(nibble(value, i - hyphens_before(i)))
            },
    )
}

/// `Uuid::new_v4`, taken as a number by `Uuid::as_u128`. The identifier is
/// random, so nothing is promised of it. The outside function fails only
/// where the operating system gives no random bytes.
#[verifier::external_body]
pub(crate) fn random_uuid() -> (value: u128) {
    Uuid::new_v4().as_u128()
}

/// `Uuid::from_u128` followed by the identifier's `to_string`: the crate
/// prints an identifier in the hyphenated lower-case form.
#[verifier::external_body]
pub(crate) fn uuid_text(value: u128) -> (s: String)
    ensures
        s@ == hyphenated(value),
{
    Uuid::from_u128(value).to_string()
}

/// Every character of the text form is a hyphen or a hexadecimal digit.
pub proof fn lemma_hyphenated_chars(value: u128)
    ensures
        hyphenated(value).len() == 36,
        forall|i: int|
            0 <= i < 36 ==> {
                let c = #[trigger] hyphenated(value)[i];
                c == '-' || ('0' <= c <= '9') || ('a' <= c <= 'f')
            },
{
    assert forall|i: int| 0 <= i < 36 implies {
        let c = #[trigger] hyphenated(value)[i];
        c == '-' || ('0' <= c <= '9') || ('a' <= c <= 'f')
    } by {
        let c = hyphenated(value)[i];
        if !(i == 8 || i == 13 || i == 18 || i == 23) {
            let n = nibble(value, i - hyphens_before(i));
            assert(n < 16);
            assert(c == hex_digit(n));
        }
    }
}

} // verus!
