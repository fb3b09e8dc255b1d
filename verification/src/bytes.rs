//! Byte-level building blocks of the canonical encodings: big-endian integers, length-prefixed
//! strings, and lowercase hexadecimal text.

use vstd::prelude::*;

use crate::text::push_char;

verus! {

/// The eight big-endian bytes of `x`.
pub open spec fn u64_be(x: u64) -> Seq<u8> {
    seq![
        (x >> 56u64) as u8,
        (x >> 48u64) as u8,
        (x >> 40u64) as u8,
        (x >> 32u64) as u8,
        (x >> 24u64) as u8,
        (x >> 16u64) as u8,
        (x >> 8u64) as u8,
        x as u8,
    ]
}

/// The length-prefixed UTF-8 encoding of the text `s`.
pub open spec fn string_bytes(s: Seq<char>) -> Seq<u8> {
    u64_be(vstd::utf8::encode_utf8(s).len() as u64) + vstd::utf8::encode_utf8(s)
}

/// The concatenated length-prefixed encodings of several texts.
pub open spec fn strings_bytes(ss: Seq<Seq<char>>) -> Seq<u8>
    decreases ss.len(),
{
    if ss.len() == 0 {
        seq![]
    } else {
        strings_bytes(ss.drop_last()) + string_bytes(ss.last())
    }
}

proof fn lemma_u64_be_injective(x: u64, y: u64)
    requires
        u64_be(x) == u64_be(y),
    ensures
        x == y,
{
    assert(u64_be(x)[0] == u64_be(y)[0]);
    assert(u64_be(x)[1] == u64_be(y)[1]);
    assert(u64_be(x)[2] == u64_be(y)[2]);
    assert(u64_be(x)[3] == u64_be(y)[3]);
    assert(u64_be(x)[4] == u64_be(y)[4]);
    assert(u64_be(x)[5] == u64_be(y)[5]);
    assert(u64_be(x)[6] == u64_be(y)[6]);
    assert(u64_be(x)[7] == u64_be(y)[7]);
    assert(((x >> 56u64) as u8 == (y >> 56u64) as u8 && (x >> 48u64) as u8 == (y >> 48u64) as u8 && (x
        >> 40u64) as u8 == (y >> 40u64) as u8 && (x >> 32u64) as u8 == (y >> 32u64) as u8 && (x >> 24u64) as u8
        == (y >> 24u64) as u8 && (x >> 16u64) as u8 == (y >> 16u64) as u8 && (x >> 8u64) as u8 == (y >> 8u64) as u8
        && x as u8 == y as u8) ==> x == y) by (bit_vector);
}

/// A length-prefixed text can be read back from the front of any bytes that start with it: when
/// two such encodings, each followed by more bytes, are equal, the texts are equal and so are the
/// bytes that follow.
pub proof fn lemma_string_bytes_prefix(a: Seq<char>, b: Seq<char>, x: Seq<u8>, y: Seq<u8>)
    requires
        string_bytes(a) + x == string_bytes(b) + y,
        vstd::utf8::encode_utf8(a).len() <= u64::MAX,
        vstd::utf8::encode_utf8(b).len() <= u64::MAX,
    ensures
        a == b,
        x == y,
{
    let ea = vstd::utf8::encode_utf8(a);
    let eb = vstd::utf8::encode_utf8(b);
    let whole = string_bytes(a) + x;
    let other = string_bytes(b) + y;
    assert(whole.subrange(0, 8) =~= u64_be(ea.len() as u64));
    assert(other.subrange(0, 8) =~= u64_be(eb.len() as u64));
    lemma_u64_be_injective(ea.len() as u64, eb.len() as u64);
    assert(ea.len() == eb.len());
    assert(whole.subrange(8, 8 + ea.len() as int) =~= ea);
    assert(other.subrange(8, 8 + eb.len() as int) =~= eb);
    vstd::utf8::encode_utf8_decode_utf8(a);
    vstd::utf8::encode_utf8_decode_utf8(b);
    assert(whole.subrange(8 + ea.len() as int, whole.len() as int) =~= x);
    assert(other.subrange(8 + eb.len() as int, other.len() as int) =~= y);
}

/// Appends the big-endian bytes of `x`.
pub fn write_u64(out: &mut Vec<u8>, x: u64)
    ensures
        final(out)@ == old(out)@ + u64_be(x),
{
    out.push((x >> 56u64) as u8);
    out.push((x >> 48u64) as u8);
    out.push((x >> 40u64) as u8);
    out.push((x >> 32u64) as u8);
    out.push((x >> 24u64) as u8);
    out.push((x >> 16u64) as u8);
    out.push((x >> 8u64) as u8);
    out.push(x as u8);
    proof {
        assert(out@ =~= old(out)@ + u64_be(x));
    }
}

/// Appends the length-prefixed UTF-8 encoding of `s`.
pub fn write_string(out: &mut Vec<u8>, s: &str)
    ensures
        final(out)@ == old(out)@ + string_bytes(s@),
{
    let bytes = s.as_bytes();
    write_u64(out, bytes.len() as u64);
    let ghost mid = out@;
    out.extend_from_slice(bytes);
    proof {
        assert forall|i: int| 0 <= i < bytes@.len() implies out@[mid.len() + i] == bytes@[i] by {
            assert(vstd::pervasive::cloned::<u8>(bytes@[i], out@[mid.len() + i]));
        }
        assert(out@ =~= mid + bytes@);
    }
}

/// The lowercase hexadecimal digit for `n`.
pub open spec fn hex_digit(n: u8) -> char {
    if n < 10 {
        (48 + n) as char
    } else {
        (87 + n) as char
    }
}

/// The lowercase hexadecimal text of `bytes`, two digits per byte, high nibble first.
pub open spec fn hex_text(bytes: Seq<u8>) -> Seq<char>
    decreases bytes.len(),
{
    if bytes.len() == 0 {
        seq![]
    } else {
        hex_text(bytes.drop_last()) + seq![hex_digit(bytes.last() / 16), hex_digit(bytes.last() % 16)]
    }
}

fn hex_char(n: u8) -> (r: char)
    requires
        n < 16,
    ensures
        r == hex_digit(n),
{
    if n < 10 {
        (48u8 + n) as char
    } else {
        (87u8 + n) as char
    }
}

/// The lowercase hexadecimal text of `bytes`.
pub fn to_hex(bytes: &[u8]) -> (r: String)
    ensures
        r@ == hex_text(bytes@),
{
    let mut out = String::new();
    let mut i: usize = 0;
    while i < bytes.len()
        invariant
            i <= bytes@.len(),
            out@ == hex_text(bytes@.take(i as int)),
        decreases bytes.len() - i,
    {
        let b = bytes[i];
        push_char(&mut out, hex_char(b / 16));
        push_char(&mut out, hex_char(b % 16));
        proof {
            assert(bytes@.take(i + 1).drop_last() =~= bytes@.take(i as int));
            assert(bytes@.take(i + 1).last() == b);
            assert(out@ =~= hex_text(bytes@.take(i + 1)));
        }
        i = i + 1;
    }
    proof {
        assert(bytes@.take(i as int) =~= bytes@);
    }
    out
}

} // verus!
