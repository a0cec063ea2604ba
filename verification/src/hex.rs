//! Hexadecimal decoding, used for the textual constants (the beneficiary
//! account and the total supply) and exposed for callers that store
//! addresses as hexadecimal text.

use vstd::prelude::*;
use vstd::arithmetic::mul::*;
use vstd::arithmetic::power2::*;
use vstd::string::StringSliceAdditionalSpecFns;

verus! {

/// Whether an ASCII byte is a hexadecimal digit (`0-9`, `a-f`, `A-F`).
pub open spec fn is_hex_digit(c: u8) -> bool {
    (48 <= c <= 57) || (97 <= c <= 102) || (65 <= c <= 70)
}

/// The value of one hexadecimal digit (zero for any other byte).
pub open spec fn spec_hex_digit(c: u8) -> u8 {
    if 48 <= c <= 57 {
        (c - 48) as u8
    } else if 97 <= c <= 102 {
        (c - 87) as u8
    } else if 65 <= c <= 70 {
        (c - 55) as u8
    } else {
        0
    }
}

/// Well-formed hexadecimal text: even length, every byte a digit.
pub open spec fn valid_hex(s: Seq<u8>) -> bool {
    s.len() % 2 == 0 && (forall|i: int| 0 <= i < s.len() ==> is_hex_digit(#[trigger] s[i]))
}

/// The bytes hexadecimal text denotes: one byte for every two digits.
pub open spec fn spec_hex_bytes(s: Seq<u8>) -> Seq<u8> {
    Seq::new(
        (s.len() / 2) as nat,
        |i: int| (spec_hex_digit(s[2 * i]) * 16 + spec_hex_digit(s[2 * i + 1])) as u8,
    )
}

/// The unsigned value of bytes read as one big-endian number.
pub open spec fn spec_be_value(bytes: Seq<u8>) -> int
    decreases bytes.len(),
{
    if bytes.len() == 0 {
        0
    } else {
        spec_be_value(bytes.drop_last()) * 256 + bytes.last()
    }
}

/// Decodes one hexadecimal digit.
fn hex_digit(c: u8) -> (r: Option<u8>)
    ensures
        r is Some <==> is_hex_digit(c),
        r is Some ==> r == Some(spec_hex_digit(c)),
{
    if 48 <= c && c <= 57 {
        Some(c - 48)
    } else if 97 <= c && c <= 102 {
        Some(c - 87)
    } else if 65 <= c && c <= 70 {
        Some(c - 55)
    } else {
        None
    }
}

/// Decodes hexadecimal text into bytes: `None` on odd length or on any byte
/// that is not a digit, and otherwise exactly the denoted bytes.
pub fn from_hex(text: &[u8]) -> (r: Option<Vec<u8>>)
    ensures
        r is Some <==> valid_hex(text@),
        r matches Some(v) ==> v@ == spec_hex_bytes(text@),
{
    if text.len() % 2 != 0 {
        return None;
    }
    let mut out: Vec<u8> = Vec::new();
    let mut i: usize = 0;
    while i < text.len()
        invariant
            text@.len() % 2 == 0,
            i % 2 == 0,
            i <= text@.len(),
            out@.len() == i / 2,
            forall|j: int| 0 <= j < i ==> is_hex_digit(#[trigger] text@[j]),
            forall|j: int| 0 <= j < i / 2 ==> out@[j] == spec_hex_bytes(text@)[j],
        decreases text@.len() - i,
    {
        let hi: u8 = match hex_digit(text[i]) {
            Some(d) => d,
            None => {
                return None;
            },
        };
        let lo: u8 = match hex_digit(text[i + 1]) {
            Some(d) => d,
            None => {
                return None;
            },
        };
        out.push(hi * 16 + lo);
        proof {
            assert(2 * ((i / 2) as int) == i);
        }
        i = i + 2;
    }
    proof {
        assert(out@ =~= spec_hex_bytes(text@));
    }
    Some(out)
}

/// Decodes hexadecimal text given as a string slice.
pub fn from_hex_str(s: &str) -> (r: Option<Vec<u8>>)
    ensures
        r is Some <==> valid_hex(s.spec_bytes()),
        r matches Some(v) ==> v@ == spec_hex_bytes(s.spec_bytes()),
{
    from_hex(s.as_bytes())
}

/// Reads hexadecimal text as one big-endian number: `None` when the text is
/// not valid hexadecimal or is longer than 32 digits (128 bits).
pub fn hex_to_u128(text: &[u8]) -> (r: Option<u128>)
    ensures
        r is Some <==> (valid_hex(text@) && text@.len() <= 32),
        r matches Some(v) ==> v as int == spec_be_value(spec_hex_bytes(text@)),
{
    if text.len() > 32 {
        return None;
    }
    let bytes: Vec<u8> = match from_hex(text) {
        Some(b) => b,
        None => {
            return None;
        },
    };
    let mut acc: u128 = 0;
    let mut i: usize = 0;
    proof {
        lemma2_to64();
        assert(bytes@.subrange(0, 0) =~= Seq::<u8>::empty());
    }
    while i < bytes.len()
        invariant
            bytes@.len() <= 16,
            i <= bytes@.len(),
            acc as int == spec_be_value(bytes@.subrange(0, i as int)),
            acc < pow2((8 * i) as nat),
    decreases bytes@.len() - i,
    {
        proof {
            lemma2_to64();
            lemma_pow2_adds((8 * i) as nat, 8);
            lemma_pow2_adds((8 * i + 8) as nat, (128 - 8 * i - 8) as nat);
            lemma_pow2_pos((128 - 8 * i - 8) as nat);
            lemma_pow2_adds(64, 64);
            // acc * 256 stays below 2^(8 i + 8) <= 2^128.
            lemma_mul_inequality(acc as int, pow2((8 * i) as nat) - 1, 256);
            lemma_mul_is_distributive_sub_other_way(256, pow2((8 * i) as nat) as int, 1);
            lemma_mul_basics(pow2((8 * i) as nat) as int);
            lemma_mul_inequality(1, pow2((128 - 8 * i - 8) as nat) as int, pow2(
                (8 * i + 8) as nat,
            ) as int);
            lemma_mul_is_commutative(
                pow2((8 * i + 8) as nat) as int,
                pow2((128 - 8 * i - 8) as nat) as int,
            );
            assert(bytes@.subrange(0, i + 1).drop_last() =~= bytes@.subrange(0, i as int));
        }
        acc = acc * 256 + (bytes[i] as u128);
        i = i + 1;
    }
    proof {
        assert(bytes@.subrange(0, bytes@.len() as int) =~= bytes@);
    }
    Some(acc)
}

} // verus!
