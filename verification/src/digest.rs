//! Content digests: the identity of a stored entity.

use vstd::prelude::*;

verus! {

/// State of the digest before any byte has been folded in.
pub const DIGEST_SEED: u64 = 0xcbf2_9ce4_8422_2325;

/// Multiplier applied after each byte.
pub const DIGEST_PRIME: u64 = 0x0000_0100_0000_01b3;

/// One step of the digest: xor the byte in, then multiply modulo 2^64.
pub open spec fn fold_byte(state: u64, byte: u8) -> u64 {
    (state ^ (byte as u64)).wrapping_mul(DIGEST_PRIME)
}

/// The digest of a payload: its bytes folded in from first to last.
pub open spec fn content_hash(bytes: Seq<u8>) -> u64
    decreases bytes.len(),
{
    if bytes.len() == 0 {
        DIGEST_SEED
    } else {
        fold_byte(content_hash(bytes.drop_last()), bytes.last())
    }
}

/// Names one entity by the digest of its bytes.
#[derive(Clone, Copy, Debug, PartialEq, Eq, Hash, Structural)]
pub struct Reference {
    pub digest: u64,
}

/// Computes the reference under which `payload` is stored.
pub fn reference_of(payload: &[u8]) -> (r: Reference)
    ensures
        r.digest == content_hash(payload@),
{
    let mut state: u64 = DIGEST_SEED;
    let mut i: usize = 0;
    while i < payload.len()
        invariant
            i <= payload.len(),
            state == content_hash(payload@.take(i as int)),
        decreases payload.len() - i,
    {
        assert(payload@.take(i + 1).drop_last() =~= payload@.take(i as int));
        state = (state ^ (payload[i] as u64)).wrapping_mul(DIGEST_PRIME);
        i += 1;
    }
    assert(payload@.take(i as int) =~= payload@);
    Reference { digest: state }
}

/// How many characters a reference has when written as text.
pub const TEXT_LEN: usize = 16;

/// The character for a hexadecimal digit of value `v`, in lower case.
pub open spec fn hex_char(v: int) -> u8 {
    if v < 10 {
        (0x30 + v) as u8
    } else {
        (0x61 + (v - 10)) as u8
    }
}

/// Whether a character is a hexadecimal digit in lower case.
pub open spec fn is_hex(c: u8) -> bool {
    (0x30 <= c <= 0x39) || (0x61 <= c <= 0x66)
}

/// The value of a hexadecimal digit.
pub open spec fn hex_val(c: u8) -> int {
    if c <= 0x39 {
        c - 0x30
    } else {
        c - 0x61 + 10
    }
}

/// Whether every character is a hexadecimal digit in lower case.
pub open spec fn all_hex(digits: Seq<u8>) -> bool {
    forall|i: int| 0 <= i < digits.len() ==> is_hex(#[trigger] digits[i])
}

/// The number that a string of hexadecimal digits denotes.
pub open spec fn hex_value(digits: Seq<u8>) -> nat
    decreases digits.len(),
{
    if digits.len() == 0 {
        0
    } else {
        (hex_value(digits.drop_last()) * 16 + hex_val(digits.last())) as nat
    }
}

/// The last `width` hexadecimal digits of `n`, padded with zeros in front.
pub open spec fn hex_digits(n: nat, width: nat) -> Seq<u8>
    decreases width,
{
    if width == 0 {
        Seq::empty()
    } else {
        hex_digits(n / 16, (width - 1) as nat).push(hex_char((n % 16) as int))
    }
}

/// Sixteen to the power `w`.
pub open spec fn pow16(w: nat) -> nat
    decreases w,
{
    if w == 0 {
        1
    } else {
        16 * pow16((w - 1) as nat)
    }
}

/// A reference as text: the sixteen hexadecimal digits of its digest, in
/// lower case, most significant first.
pub open spec fn text_of(r: Reference) -> Seq<u8> {
    hex_digits(r.digest as nat, TEXT_LEN as nat)
}

/// The reference that a text stands for: the text is sixteen hexadecimal
/// digits in lower case and nothing else.
pub open spec fn reference_from(text: Seq<u8>) -> Option<Reference> {
    if text.len() == TEXT_LEN && all_hex(text) {
        Some(Reference { digest: hex_value(text) as u64 })
    } else {
        None
    }
}

proof fn lemma_pow16_grows(i: nat, j: nat)
    requires
        i <= j,
    ensures
        0 < pow16(i) <= pow16(j),
    decreases j,
{
    if j > 0 {
        if i < j {
            lemma_pow16_grows(i, (j - 1) as nat);
        } else {
            lemma_pow16_grows((i - 1) as nat, (j - 1) as nat);
        }
    }
}

proof fn lemma_pow16_sixteen()
    ensures
        pow16(16) == 0x1_0000_0000_0000_0000,
{
    reveal_with_fuel(pow16, 17);
}

proof fn lemma_hex_digits(n: nat, width: nat)
    requires
        n < pow16(width),
    ensures
        hex_digits(n, width).len() == width,
        all_hex(hex_digits(n, width)),
        hex_value(hex_digits(n, width)) == n,
    decreases width,
{
    if width > 0 {
        let rest = hex_digits(n / 16, (width - 1) as nat);
        lemma_hex_digits(n / 16, (width - 1) as nat);
        let text = hex_digits(n, width);
        assert(text.drop_last() =~= rest);
        assert(hex_val(hex_char((n % 16) as int)) == n % 16);
        assert forall|i: int| 0 <= i < text.len() implies is_hex(#[trigger] text[i]) by {
            if i < rest.len() {
                assert(is_hex(rest[i]));
            }
        }
    }
}

proof fn lemma_hex_value_bound(digits: Seq<u8>)
    requires
        all_hex(digits),
    ensures
        hex_value(digits) < pow16(digits.len()),
    decreases digits.len(),
{
    if digits.len() > 0 {
        let rest = digits.drop_last();
        assert(all_hex(rest)) by {
            assert forall|i: int| 0 <= i < rest.len() implies is_hex(#[trigger] rest[i]) by {
                assert(is_hex(digits[i]));
            }
        }
        lemma_hex_value_bound(rest);
        assert(is_hex(digits[digits.len() - 1]));
    }
}

proof fn lemma_hex_canonical(digits: Seq<u8>)
    requires
        all_hex(digits),
    ensures
        hex_digits(hex_value(digits), digits.len()) == digits,
    decreases digits.len(),
{
    if digits.len() > 0 {
        let rest = digits.drop_last();
        assert(all_hex(rest)) by {
            assert forall|i: int| 0 <= i < rest.len() implies is_hex(#[trigger] rest[i]) by {
                assert(is_hex(digits[i]));
            }
        }
        lemma_hex_canonical(rest);
        let last = digits[digits.len() - 1];
        assert(is_hex(last));
        let v = hex_value(digits);
        assert(v / 16 == hex_value(rest) && v % 16 == hex_val(last));
        assert(hex_char(hex_val(last)) == last);
        assert(hex_digits(v, digits.len()) =~= digits);
    } else {
        assert(hex_digits(hex_value(digits), digits.len()) =~= digits);
    }
}

/// A reference written as text reads back as that reference.
pub proof fn lemma_text_round_trip(r: Reference)
    ensures
        text_of(r).len() == TEXT_LEN,
        reference_from(text_of(r)) == Some(r),
{
    lemma_pow16_sixteen();
    lemma_hex_digits(r.digest as nat, TEXT_LEN as nat);
}

/// A text that reads as a reference is exactly that reference's text: no
/// two texts stand for the same reference.
pub proof fn lemma_text_is_canonical(text: Seq<u8>)
    requires
        reference_from(text) is Some,
    ensures
        text_of(reference_from(text)->0) == text,
{
    lemma_pow16_sixteen();
    lemma_hex_value_bound(text);
    lemma_hex_canonical(text);
}

fn hex_char_of(v: u8) -> (c: u8)
    requires
        v < 16,
    ensures
        c == hex_char(v as int),
{
    if v < 10 {
        0x30 + v
    } else {
        0x61 + (v - 10)
    }
}

fn push_hex(out: &mut Vec<u8>, n: u64, width: u8)
    ensures
        final(out)@ == old(out)@ + hex_digits(n as nat, width as nat),
    decreases width,
{
    if width > 0 {
        push_hex(out, n / 16, width - 1);
        out.push(hex_char_of((n % 16) as u8));
    }
    assert(final(out)@ =~= old(out)@ + hex_digits(n as nat, width as nat));
}

impl Reference {
    /// Writes the reference as text.
    pub fn to_text(&self) -> (text: Vec<u8>)
        ensures
            text@ == text_of(*self),
            reference_from(text@) == Some(*self),
    {
        let mut out: Vec<u8> = Vec::new();
        push_hex(&mut out, self.digest, 16);
        proof {
            assert(out@ =~= text_of(*self));
            lemma_text_round_trip(*self);
        }
        out
    }

    /// Reads a reference out of its text; `None` if the text is not one
    /// that `to_text` writes.
    pub fn from_text(text: &[u8]) -> (read: Option<Reference>)
        ensures
            read == reference_from(text@),
    {
        if text.len() != TEXT_LEN {
            return None;
        }
        let mut value: u128 = 0;
        let mut i: usize = 0;
        proof {
            lemma_pow16_sixteen();
        }
        while i < TEXT_LEN
            invariant
                i <= TEXT_LEN,
                text@.len() == TEXT_LEN,
                pow16(16) == 0x1_0000_0000_0000_0000,
                all_hex(text@.take(i as int)),
                value == hex_value(text@.take(i as int)),
                value < 0x1_0000_0000_0000_0000,
            decreases TEXT_LEN - i,
        {
            let c: u8 = text[i];
            let digit: u8 = if 0x30 <= c && c <= 0x39 {
                c - 0x30
            } else if 0x61 <= c && c <= 0x66 {
                c - 0x61 + 10
            } else {
                assert(!is_hex(text@[i as int]));
                return None;
            };
            proof {
                let next = text@.take(i + 1);
                assert(next.drop_last() =~= text@.take(i as int));
                assert forall|j: int| 0 <= j < next.len() implies is_hex(#[trigger] next[j]) by {
                    if j < i {
                        assert(is_hex(text@.take(i as int)[j]));
                    }
                }
                lemma_hex_value_bound(next);
                lemma_pow16_grows((i + 1) as nat, 16);
            }
            value = value * 16 + digit as u128;
            i += 1;
        }
        assert(text@.take(i as int) =~= text@);
        Some(Reference { digest: value as u64 })
    }
}

} // verus!
