//! SHA-256, as the `sha2` crate computes it, and digests in hexadecimal.

use vstd::prelude::*;

use sha2::Digest;
use sha2::Sha256;

verus! {

/// The SHA-256 digest of some bytes.
pub uninterp spec fn sha256_of(bytes: Seq<u8>) -> Seq<u8>;

/// `Sha256::digest`: the digest depends on the bytes alone and is 32 bytes long.
/// Which 32 bytes is named, not stated; that different bytes have different
/// digests is not claimed.
#[verifier::external_body]
pub(crate) fn sha256(bytes: &[u8]) -> (r: Vec<u8>)
    ensures
        r@ == sha256_of(bytes@),
        r@.len() == 32,
{
    Sha256::digest(bytes).to_vec()
}

/// The hexadecimal digit for a value below sixteen.
pub open spec fn hex_digit(n: int) -> char {
    if n < 10 {
        (48 + n) as char
    } else {
        (87 + n) as char
    }
}

/// Bytes in lowercase hexadecimal, two digits each.
pub open spec fn hex_of(bytes: Seq<u8>) -> Seq<char>
    decreases bytes.len(),
{
    if bytes.len() == 0 {
        Seq::empty()
    } else {
        hex_of(bytes.drop_last()).push(hex_digit(bytes.last() as int / 16)).push(
            hex_digit(bytes.last() as int % 16),
        )
    }
}

fn digit(n: u8) -> (r: char)
    requires
        n < 16,
    ensures
        r == hex_digit(n as int),
{
    if n < 10 {
        (48 + n) as char
    } else {
        (87 + n) as char
    }
}

/// Bytes in lowercase hexadecimal.
pub fn hex(bytes: &[u8]) -> (r: Vec<char>)
    ensures
        r@ == hex_of(bytes@),
        r@.len() == 2 * bytes@.len(),
{
    let mut out: Vec<char> = Vec::new();
    let mut i: usize = 0;
    while i < bytes.len()
        invariant
            i <= bytes@.len(),
            out@ == hex_of(bytes@.take(i as int)),
            out@.len() == 2 * i,
        decreases bytes.len() - i,
    {
        assert(bytes@.take(i + 1).drop_last() =~= bytes@.take(i as int));
        out.push(digit(bytes[i] / 16));
        out.push(digit(bytes[i] % 16));
        i += 1;
    }
    assert(bytes@.take(bytes@.len() as int) =~= bytes@);
    out
}

/// Whether a character is a digit of a number in lowercase hexadecimal.
pub open spec fn is_hex(c: char) -> bool {
    '0' <= c <= '9' || 'a' <= c <= 'f'
}

/// Hexadecimal is made of nothing but its digits.
pub proof fn lemma_hex_digits(bytes: Seq<u8>)
    ensures
        hex_of(bytes).len() == 2 * bytes.len(),
        forall|i: int| 0 <= i < hex_of(bytes).len() ==> is_hex(#[trigger] hex_of(bytes)[i]),
    decreases bytes.len(),
{
    if bytes.len() > 0 {
        lemma_hex_digits(bytes.drop_last());
    }
}

/// The texts, one after the other, each in UTF-8 and each but the last closed
/// with a zero byte.
pub open spec fn sealed(parts: Seq<Seq<char>>) -> Seq<u8>
    decreases parts.len(),
{
    if parts.len() == 0 {
        Seq::empty()
    } else if parts.len() == 1 {
        vstd::utf8::encode_utf8(parts[0])
    } else {
        sealed(parts.drop_last()).push(0u8) + vstd::utf8::encode_utf8(parts.last())
    }
}

/// Whether none of the texts holds a zero character.
pub open spec fn without_zeros(parts: Seq<Seq<char>>) -> bool {
    forall|i: int| 0 <= i < parts.len() ==> !(#[trigger] parts[i]).contains('\0')
}

/// The texts, one after the other, each but the last closed with a zero
/// character.
spec fn closed_up(parts: Seq<Seq<char>>) -> Seq<char>
    decreases parts.len(),
{
    if parts.len() == 0 {
        Seq::empty()
    } else if parts.len() == 1 {
        parts[0]
    } else {
        closed_up(parts.drop_last()).push('\0') + parts.last()
    }
}

/// Two texts in a row are encoded one after the other.
proof fn lemma_encode_concat(a: Seq<char>, b: Seq<char>)
    ensures
        vstd::utf8::encode_utf8(a + b) == vstd::utf8::encode_utf8(a) + vstd::utf8::encode_utf8(b),
    decreases a.len(),
{
    if a.len() == 0 {
        assert(a + b =~= b);
    } else {
        lemma_encode_concat(a.drop_first(), b);
        assert((a + b).drop_first() =~= a.drop_first() + b);
    }
    assert(vstd::utf8::encode_utf8(a + b) =~= vstd::utf8::encode_utf8(a) + vstd::utf8::encode_utf8(
        b,
    ));
}

/// Zero bytes between the texts are zero characters, encoded.
proof fn lemma_sealed_is_encoded(parts: Seq<Seq<char>>)
    ensures
        sealed(parts) == vstd::utf8::encode_utf8(closed_up(parts)),
    decreases parts.len(),
{
    if parts.len() > 1 {
        let front = closed_up(parts.drop_last());
        let zero = seq!['\0'];
        lemma_sealed_is_encoded(parts.drop_last());
        lemma_encode_concat(front.push('\0'), parts.last());
        assert(front.push('\0') =~= front + zero);
        lemma_encode_concat(front, zero);
        assert(vstd::utf8::encode_utf8(zero) =~= seq![0u8]) by {
            reveal_with_fuel(vstd::utf8::encode_utf8, 2);
            assert(0u32 & 0x7F == 0) by (bit_vector);
        }
        assert(sealed(parts) =~= vstd::utf8::encode_utf8(closed_up(parts)));
    }
}

/// Texts without zeros are found again between the zeros.
proof fn lemma_closed_up_apart(a: Seq<Seq<char>>, b: Seq<Seq<char>>)
    requires
        a.len() == b.len(),
        without_zeros(a),
        without_zeros(b),
        closed_up(a) == closed_up(b),
    ensures
        a == b,
    decreases a.len(),
{
    if a.len() > 1 {
        let p = closed_up(a.drop_last());
        let q = closed_up(b.drop_last());
        let x = closed_up(a);
        assert(x == p.push('\0') + a.last());
        assert(x == q.push('\0') + b.last());
        assert(x[p.len() as int] == '\0' && x[q.len() as int] == '\0');
        assert(!a.last().contains('\0') && !b.last().contains('\0'));
        if p.len() < q.len() {
            assert(a.last()[q.len() - p.len() - 1] == '\0');
        }
        if q.len() < p.len() {
            assert(b.last()[p.len() - q.len() - 1] == '\0');
        }
        assert(p =~= x.take(p.len() as int));
        assert(q =~= x.take(p.len() as int));
        assert(a.last() =~= x.skip(p.len() as int + 1));
        assert(b.last() =~= x.skip(p.len() as int + 1));
        assert forall|i: int| 0 <= i < a.drop_last().len() implies !(
        #[trigger] a.drop_last()[i]).contains('\0') by {
            assert(!a[i].contains('\0'));
        }
        assert forall|i: int| 0 <= i < b.drop_last().len() implies !(
        #[trigger] b.drop_last()[i]).contains('\0') by {
            assert(!b[i].contains('\0'));
        }
        lemma_closed_up_apart(a.drop_last(), b.drop_last());
        assert(a =~= a.drop_last().push(a.last()));
        assert(b =~= b.drop_last().push(b.last()));
    } else {
        assert(a =~= b);
    }
}

/// What is digested tells texts apart: as many texts, none of which holds a zero,
/// give the same bytes only where they are the same.
pub proof fn law_sealed_texts_are_told_apart(a: Seq<Seq<char>>, b: Seq<Seq<char>>)
    requires
        a.len() == b.len(),
        without_zeros(a),
        without_zeros(b),
    ensures
        sealed(a) == sealed(b) <==> a == b,
{
    if sealed(a) == sealed(b) {
        lemma_sealed_is_encoded(a);
        lemma_sealed_is_encoded(b);
        vstd::utf8::encode_utf8_decode_utf8(closed_up(a));
        vstd::utf8::encode_utf8_decode_utf8(closed_up(b));
        lemma_closed_up_apart(a, b);
    }
}

/// Bytes are found again in their hexadecimal form.
pub proof fn lemma_hex_apart(a: Seq<u8>, b: Seq<u8>)
    requires
        hex_of(a) == hex_of(b),
    ensures
        a == b,
    decreases a.len(),
{
    lemma_hex_digits(a);
    lemma_hex_digits(b);
    if a.len() > 0 {
        let x = hex_of(a);
        let front = hex_of(a.drop_last());
        let other = hex_of(b.drop_last());
        lemma_hex_digits(a.drop_last());
        lemma_hex_digits(b.drop_last());
        let n = front.len() as int;
        assert(front =~= x.take(n));
        assert(other =~= x.take(n));
        lemma_hex_apart(a.drop_last(), b.drop_last());
        let m = a.last() as int;
        let k = b.last() as int;
        assert(x[n] == hex_digit(m / 16) && x[n] == hex_digit(k / 16));
        assert(x[n + 1] == hex_digit(m % 16) && x[n + 1] == hex_digit(k % 16));
        assert(m / 16 == k / 16 && m % 16 == k % 16);
        assert(a =~= a.drop_last().push(a.last()));
        assert(b =~= b.drop_last().push(b.last()));
    } else {
        assert(a =~= b);
    }
}

/// Append the bytes of a text.
pub fn push_bytes(out: &mut Vec<u8>, s: &str)
    ensures
        final(out)@ == old(out)@ + vstd::utf8::encode_utf8(s@),
{
    let mut bytes = crate::block::copy_bytes(s.as_bytes());
    out.append(&mut bytes);
}

} // verus!
