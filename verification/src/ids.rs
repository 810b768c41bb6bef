//! Universally unique identifiers, held as the numbers that their bits denote.

use vstd::prelude::*;
use vstd::string::*;

use crate::text;

verus! {

/// Thirty-six characters: hexadecimal digits in groups of eight, four, four,
/// four and twelve, with hyphens between the groups.
pub open spec fn is_hyphenated(s: Seq<char>) -> bool {
    s.len() == 36 && forall|i: int|
        0 <= i < 36 ==> if i == 8 || i == 13 || i == 18 || i == 23 {
            #[trigger] s[i] == '-'
        } else {
            text::is_hex_digit(s[i])
        }
}

/// The digits of a hyphenated identifier.
pub open spec fn hyphenated_digits(s: Seq<char>) -> Seq<char> {
    s.subrange(0, 8) + s.subrange(9, 13) + s.subrange(14, 18) + s.subrange(19, 23) + s.subrange(
        24,
        36,
    )
}

/// The identifier that a text denotes: thirty-two digits, or a hyphenated text,
/// which may stand in braces or after `urn:uuid:`.
pub open spec fn uuid_value(s: Seq<char>) -> Option<u128> {
    if s.len() == 32 && forall|i: int| 0 <= i < 32 ==> text::is_hex_digit(#[trigger] s[i]) {
        Some(text::hex_digits_value(s) as u128)
    } else if is_hyphenated(s) {
        Some(text::hex_digits_value(hyphenated_digits(s)) as u128)
    } else if s.len() == 38 && s[0] == '{' && s[37] == '}' && is_hyphenated(s.subrange(1, 37)) {
        Some(text::hex_digits_value(hyphenated_digits(s.subrange(1, 37))) as u128)
    } else if s.len() == 45 && text::lower(s.take(9)) == "urn:uuid:"@ && is_hyphenated(s.skip(9)) {
        Some(text::hex_digits_value(hyphenated_digits(s.skip(9))) as u128)
    } else {
        None
    }
}

/// The digit at position `k` of the thirty-two digits of an identifier.
pub open spec fn uuid_digit(id: u128, k: int) -> char {
    text::hex_digit((id as int / vstd::arithmetic::power::pow(16, (31 - k) as nat)) % 16)
}

/// The hyphenated lower-case text of an identifier.
pub open spec fn uuid_text(id: u128) -> Seq<char> {
    Seq::new(
        36,
        |i: int|
            if i < 8 {
                uuid_digit(id, i)
            } else if i == 8 || i == 13 || i == 18 || i == 23 {
                '-'
            } else if i < 13 {
                uuid_digit(id, i - 1)
            } else if i < 18 {
                uuid_digit(id, i - 2)
            } else if i < 23 {
                uuid_digit(id, i - 3)
            } else {
                uuid_digit(id, i - 4)
            },
    )
}

/// `Uuid::parse_str`: the identifier that the text denotes, in any of the four
/// notations.
#[verifier::external_body]
pub(crate) fn parse_uuid(s: &str) -> (r: Option<u128>)
    ensures
        r == uuid_value(s@),
{
    uuid::Uuid::parse_str(s).ok().map(|id| id.as_u128())
}

/// `Uuid::to_string`: the hyphenated lower-case text.
#[verifier::external_body]
pub(crate) fn uuid_to_text(id: u128) -> (r: String)
    ensures
        r@ == uuid_text(id),
{
    uuid::Uuid::from_u128(id).to_string()
}

proof fn lemma_digits_prefix(id: u128, d: Seq<char>, k: int)
    requires
        d.len() == 32,
        forall|i: int| 0 <= i < 32 ==> #[trigger] d[i] == uuid_digit(id, i),
        0 <= k <= 32,
    ensures
        text::hex_digits_value(d.take(k)) == id as int / vstd::arithmetic::power::pow(16, (32 - k) as nat),
    decreases k,
{
    broadcast use vstd::arithmetic::power::lemma_pow_positive;

    if k == 0 {
        assert(vstd::arithmetic::power::pow(16, 32) == 0x1_0000_0000_0000_0000_0000_0000_0000_0000int) by {
            reveal_with_fuel(vstd::arithmetic::power::pow, 33);
        }
        assert(d.take(0) =~= Seq::<char>::empty());
        assert(text::hex_digits_value(d.take(0)) == 0);
        assert(id as int / 0x1_0000_0000_0000_0000_0000_0000_0000_0000int == 0);
    } else {
        lemma_digits_prefix(id, d, k - 1);
        let p = vstd::arithmetic::power::pow(16, (32 - k) as nat);
        assert(vstd::arithmetic::power::pow(16, (33 - k) as nat) == 16 * p) by {
            reveal(vstd::arithmetic::power::pow);
        }
        assert(d.take(k).drop_last() =~= d.take(k - 1));
        assert(d.take(k).last() == uuid_digit(id, k - 1));
        let x = id as int / p;
        assert(id as int / (p * 16) == x / 16) by {
            vstd::arithmetic::div_mod::lemma_div_denominator(id as int, p, 16);
        }
        assert(p * 16 == 16 * p);
        let n = x % 16;
        assert(text::hex_value(text::hex_digit(n)) == Some(n));
        assert(31 - (k - 1) == 32 - k);
        assert(d.take(k).last() == text::hex_digit(n));
        assert(x == (x / 16) * 16 + x % 16);
        assert(text::hex_digits_value(d.take(k - 1)) == x / 16);
        assert(text::hex_digits_value(d.take(k)) == text::hex_digits_value(d.take(k - 1)) * 16 + n);
    }
}

/// The text of an identifier denotes that identifier, and no white space
/// stands at its ends.
pub proof fn lemma_uuid_text_round_trip(id: u128)
    ensures
        uuid_value(uuid_text(id)) == Some(id),
        text::trim(uuid_text(id)) == uuid_text(id),
{
    broadcast use vstd::arithmetic::power::lemma_pow_positive;

    let s = uuid_text(id);
    let d = hyphenated_digits(s);
    assert forall|k: int| 0 <= k < 32 implies #[trigger] d[k] == uuid_digit(id, k) by {}
    assert forall|k: int| 0 <= k < 32 implies text::is_hex_digit(#[trigger] uuid_digit(id, k)) by {
        let n = (id as int / vstd::arithmetic::power::pow(16, (31 - k) as nat)) % 16;
        assert(0 <= n < 16);
    }
    assert(is_hyphenated(s));
    lemma_digits_prefix(id, d, 32);
    assert(d.take(32) =~= d);
    assert(vstd::arithmetic::power::pow(16, 0) == 1) by {
        reveal(vstd::arithmetic::power::pow);
    }
    assert((32 - 32) as nat == 0);
    assert(id as int / 1 == id as int);
    assert(text::hex_digits_value(d) == id as int);
    assert(text::is_hex_digit(s[0]));
    assert(text::is_hex_digit(s[35]));
    assert(!text::is_space(s[0]));
    assert(!text::is_space(s.last()));
}

} // verus!
