//! Bytes as text: base64 and hexadecimal.

use base64::engine::general_purpose::STANDARD;
use base64::Engine;
use vstd::prelude::*;
use vstd::string::*;

use crate::text;

verus! {

// ---------------------------------------------------------------------------
// Hexadecimal
// ---------------------------------------------------------------------------

/// Two lower-case hexadecimal digits for each byte.
pub open spec fn hex_bytes(b: Seq<u8>) -> Seq<char> {
    Seq::new(
        2 * b.len(),
        |i: int|
            if i % 2 == 0 {
                text::hex_digit(b[i / 2] as int / 16)
            } else {
                text::hex_digit(b[i / 2] as int % 16)
            },
    )
}

/// `hex::encode` writes each byte as two lower-case hexadecimal digits, the
/// higher one first.
#[verifier::external_body]
pub(crate) fn hex_encode(b: &[u8]) -> (r: String)
    ensures
        r@ == hex_bytes(b@),
{
    hex::encode(b)
}

/// Every character of hexadecimal text is a lower-case hexadecimal digit.
pub proof fn lemma_hex_bytes_visible(b: Seq<u8>)
    ensures
        forall|i: int|
            0 <= i < hex_bytes(b).len() ==> {
                let c = #[trigger] hex_bytes(b)[i];
                ('0' <= c && c <= '9') || ('a' <= c && c <= 'f')
            },
{
}

// ---------------------------------------------------------------------------
// Base64
// ---------------------------------------------------------------------------

/// The base64 digit of a value below sixty-four, in the standard alphabet.
pub open spec fn base64_digit(n: int) -> char {
    if n < 26 {
        ('A' as int + n) as char
    } else if n < 52 {
        ('a' as int + (n - 26)) as char
    } else if n < 62 {
        ('0' as int + (n - 52)) as char
    } else if n == 62 {
        '+'
    } else {
        '/'
    }
}

/// The padded base64 text of some bytes: four digits for each three bytes.
pub open spec fn base64_text(b: Seq<u8>) -> Seq<char>
    decreases b.len(),
{
    if b.len() == 0 {
        Seq::<char>::empty()
    } else if b.len() == 1 {
        seq![base64_digit(b[0] as int / 4), base64_digit((b[0] as int % 4) * 16), '=', '=']
    } else if b.len() == 2 {
        seq![
            base64_digit(b[0] as int / 4),
            base64_digit((b[0] as int % 4) * 16 + b[1] as int / 16),
            base64_digit((b[1] as int % 16) * 4),
            '=',
        ]
    } else {
        seq![
            base64_digit(b[0] as int / 4),
            base64_digit((b[0] as int % 4) * 16 + b[1] as int / 16),
            base64_digit((b[1] as int % 16) * 4 + b[2] as int / 64),
            base64_digit(b[2] as int % 64),
        ] + base64_text(b.skip(3))
    }
}

/// `Engine::encode` of the `STANDARD` engine: the padded base64 text of the
/// bytes. It panics where the length of the text overflows.
#[verifier::external_body]
pub(crate) fn base64_encode(b: &[u8]) -> (r: String)
    requires
        b@.len() <= usize::MAX / 4,
    ensures
        r@ == base64_text(b@),
{
    STANDARD.encode(b)
}

/// `Engine::decode` of the `STANDARD` engine, which requires canonical padding
/// and allows no trailing bits: it accepts the texts that encoding can produce
/// and no others, and returns the bytes that the text encodes.
#[verifier::external_body]
pub(crate) fn base64_decode(s: &str) -> (r: Option<Vec<u8>>)
    ensures
        match r {
            Some(b) => base64_text(b@) == s@,
            None => forall|b: Seq<u8>| #[trigger] base64_text(b) != s@,
        },
{
    STANDARD.decode(s).ok()
}

proof fn lemma_base64_digit(m: int, n: int)
    requires
        0 <= m < 64,
        0 <= n < 64,
    ensures
        base64_digit(m) != '=',
        base64_digit(m) == base64_digit(n) ==> m == n,
{
}

proof fn lemma_split_bytes(a: Seq<int>, b: Seq<int>)
    requires
        a.len() == 3,
        b.len() == 3,
        forall|i: int| 0 <= i < 3 ==> 0 <= #[trigger] a[i] < 256,
        forall|i: int| 0 <= i < 3 ==> 0 <= #[trigger] b[i] < 256,
        a[0] / 4 == b[0] / 4,
        (a[0] % 4) * 16 + a[1] / 16 == (b[0] % 4) * 16 + b[1] / 16,
        (a[1] % 16) * 4 + a[2] / 64 == (b[1] % 16) * 4 + b[2] / 64,
        a[2] % 64 == b[2] % 64,
    ensures
        a[0] == b[0],
        a[1] == b[1],
        a[2] == b[2],
{
    let (a0, a1, a2, b0, b1, b2) = (a[0], a[1], a[2], b[0], b[1], b[2]);
    assert(a0 % 4 == b0 % 4);
    assert(a1 / 16 == b1 / 16);
    assert(a1 % 16 == b1 % 16);
    assert(a2 / 64 == b2 / 64);
}

/// Different bytes have different base64 texts.
pub proof fn lemma_base64_injective(a: Seq<u8>, b: Seq<u8>)
    requires
        base64_text(a) == base64_text(b),
    ensures
        a == b,
    decreases a.len(),
{
    let s = base64_text(a);
    let t = base64_text(b);
    if a.len() == 0 {
        assert(t.len() == 0);
        assert(b.len() == 0);
        assert(a =~= b);
    } else {
        assert(s.len() >= 4);
        assert(b.len() > 0);
        assert(s[0] == t[0] && s[1] == t[1] && s[2] == t[2] && s[3] == t[3]);
        lemma_base64_digit(a[0] as int / 4, b[0] as int / 4);
        if a.len() == 1 {
            assert(s[2] == '=');
            if b.len() == 2 {
                lemma_base64_digit((b[1] as int % 16) * 4, 0);
            } else if b.len() > 2 {
                lemma_base64_digit((b[1] as int % 16) * 4 + b[2] as int / 64, 0);
            }
            assert(b.len() == 1);
            lemma_base64_digit((a[0] as int % 4) * 16, (b[0] as int % 4) * 16);
            assert(a[0] == b[0]);
            assert(a =~= b);
        } else if a.len() == 2 {
            assert(s[3] == '=');
            lemma_base64_digit((a[1] as int % 16) * 4, 0);
            if b.len() > 2 {
                lemma_base64_digit(b[2] as int % 64, 0);
            }
            assert(b.len() == 2);
            lemma_base64_digit(
                (a[0] as int % 4) * 16 + a[1] as int / 16,
                (b[0] as int % 4) * 16 + b[1] as int / 16,
            );
            lemma_base64_digit((a[1] as int % 16) * 4, (b[1] as int % 16) * 4);
            lemma_split_bytes(
                seq![a[0] as int, a[1] as int, 0],
                seq![b[0] as int, b[1] as int, 0],
            );
            assert(a =~= b);
        } else {
            lemma_base64_digit(a[2] as int % 64, 0);
            lemma_base64_digit((a[1] as int % 16) * 4 + a[2] as int / 64, 0);
            assert(b.len() > 2);
            assert(s[0] == base64_digit(a[0] as int / 4));
            assert(t[0] == base64_digit(b[0] as int / 4));
            assert(s[1] == base64_digit((a[0] as int % 4) * 16 + a[1] as int / 16));
            assert(t[1] == base64_digit((b[0] as int % 4) * 16 + b[1] as int / 16));
            assert(s[2] == base64_digit((a[1] as int % 16) * 4 + a[2] as int / 64));
            assert(t[2] == base64_digit((b[1] as int % 16) * 4 + b[2] as int / 64));
            assert(s[3] == base64_digit(a[2] as int % 64));
            assert(t[3] == base64_digit(b[2] as int % 64));
            lemma_base64_digit(
                (a[0] as int % 4) * 16 + a[1] as int / 16,
                (b[0] as int % 4) * 16 + b[1] as int / 16,
            );
            lemma_base64_digit(
                (a[1] as int % 16) * 4 + a[2] as int / 64,
                (b[1] as int % 16) * 4 + b[2] as int / 64,
            );
            lemma_base64_digit(a[2] as int % 64, b[2] as int % 64);
            lemma_split_bytes(
                seq![a[0] as int, a[1] as int, a[2] as int],
                seq![b[0] as int, b[1] as int, b[2] as int],
            );
            assert(s.skip(4) =~= base64_text(a.skip(3)));
            assert(t.skip(4) =~= base64_text(b.skip(3)));
            lemma_base64_injective(a.skip(3), b.skip(3));
            assert forall|i: int| 0 <= i < a.len() implies a[i] == b[i] by {
                if i >= 3 {
                    assert(a.skip(3)[i - 3] == b.skip(3)[i - 3]);
                }
            }
            assert(a.len() == a.skip(3).len() + 3);
            assert(b.len() == b.skip(3).len() + 3);
            assert(a =~= b);
        }
    }
}

/// Base64 text is made of visible ASCII characters.
pub proof fn lemma_base64_visible(b: Seq<u8>)
    ensures
        forall|i: int|
            0 <= i < base64_text(b).len() ==> {
                let c = #[trigger] base64_text(b)[i];
                ' ' < c && c <= '~'
            },
    decreases b.len(),
{
    if b.len() > 2 {
        lemma_base64_visible(b.skip(3));
        let s = base64_text(b);
        assert forall|i: int| 0 <= i < s.len() implies {
            let c = #[trigger] s[i];
            ' ' < c && c <= '~'
        } by {
            if i >= 4 {
                assert(s[i] == base64_text(b.skip(3))[i - 4]);
            }
        }
    }
}

/// The bytes that a base64 text encodes.
pub open spec fn base64_bytes(s: Seq<char>) -> Option<Seq<u8>> {
    if exists|b: Seq<u8>| #[trigger] base64_text(b) == s {
        Some(choose|b: Seq<u8>| #[trigger] base64_text(b) == s)
    } else {
        None
    }
}

/// Decoding gives back the bytes that were encoded.
pub proof fn lemma_base64_round_trip(b: Seq<u8>)
    ensures
        base64_bytes(base64_text(b)) == Some(b),
{
    let s = base64_text(b);
    let c = choose|c: Seq<u8>| #[trigger] base64_text(c) == s;
    assert(base64_text(c) == s);
    lemma_base64_injective(b, c);
}

/// The bytes that the base64 text `s` encodes, if it is one.
pub fn decode_base64(s: &str) -> (r: Option<Vec<u8>>)
    ensures
        match r {
            Some(b) => base64_bytes(s@) == Some(b@),
            None => base64_bytes(s@) is None,
        },
{
    let r = base64_decode(s);
    proof {
        if r is Some {
            lemma_base64_round_trip(r->0@);
        }
    }
    r
}

} // verus!
