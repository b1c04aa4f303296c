//! Bytes as base64 text.
use base64::engine::general_purpose::STANDARD;
use base64::Engine;
use vstd::prelude::*;
use vstd::slice::slice_subrange;

verus! {

/// The character for six bits: `A` to `Z`, `a` to `z`, `0` to `9`, `+`, `/`.
pub open spec fn base64_char(bits: int) -> char {
    if bits < 26 {
        (65 + bits) as char
    } else if bits < 52 {
        (71 + bits) as char
    } else if bits < 62 {
        (bits - 4) as char
    } else if bits == 62 {
        '+'
    } else {
        '/'
    }
}

/// The byte at `i`, or zero behind the last one.
pub open spec fn byte_or_zero(bytes: Seq<u8>, i: int) -> int {
    if 0 <= i < bytes.len() {
        bytes[i] as int
    } else {
        0
    }
}

/// The `i`-th group of six bits, counted from the highest bit of the first
/// byte on: three bytes make four groups.
pub open spec fn sextet(bytes: Seq<u8>, i: int) -> int {
    let first = byte_or_zero(bytes, i / 4 * 3);
    let second = byte_or_zero(bytes, i / 4 * 3 + 1);
    let third = byte_or_zero(bytes, i / 4 * 3 + 2);
    if i % 4 == 0 {
        first / 4
    } else if i % 4 == 1 {
        first % 4 * 16 + second / 16
    } else if i % 4 == 2 {
        second % 16 * 4 + third / 64
    } else {
        third % 64
    }
}

/// Bytes in base64 with the standard alphabet: a character for every six bits,
/// filled up with `=` to a multiple of four characters.
pub open spec fn base64_text(bytes: Seq<u8>) -> Seq<char> {
    Seq::new(
        (bytes.len() + 2) / 3 * 4,
        |i: int|
            if 6 * i < 8 * bytes.len() {
                base64_char(sextet(bytes, i))
            } else {
                '='
            },
    )
}

/// The most bytes that are handed to the encoder at once.
pub const BLOCK: usize = 3072;

/// The engine `base64::engine::general_purpose::STANDARD` encodes bytes with
/// the standard alphabet and with padding. It panics where the length of the
/// text is too large for a `usize`, so that only short blocks are handed to it.
#[verifier::external_body]
fn encode_block(bytes: &[u8]) -> (text: String)
    requires
        bytes@.len() <= BLOCK,
    ensures
        text@ == base64_text(bytes@),
{
    STANDARD.encode(bytes)
}

/// Where bytes are cut behind a multiple of three, the texts of the two parts
/// make up the text of the whole.
pub proof fn texts_of_blocks_make_up_the_whole(a: Seq<u8>, b: Seq<u8>)
    requires
        a.len() % 3 == 0,
    ensures
        base64_text(a + b) == base64_text(a) + base64_text(b),
{
    let whole = a + b;
    let split = base64_text(a) + base64_text(b);
    let cut = a.len() / 3 * 4;
    assert(base64_text(a).len() == cut);
    assert(base64_text(whole).len() == split.len());
    assert forall|i: int| 0 <= i < base64_text(whole).len() implies base64_text(whole)[i]
        == split[i] by {
        if i < cut {
            assert(i / 4 * 3 + 2 < a.len());
            assert(sextet(whole, i) == sextet(a, i));
        } else {
            let k = i - cut;
            assert(i / 4 * 3 == k / 4 * 3 + a.len());
            assert(i % 4 == k % 4);
            assert(byte_or_zero(whole, i / 4 * 3) == byte_or_zero(b, k / 4 * 3));
            assert(byte_or_zero(whole, i / 4 * 3 + 1) == byte_or_zero(b, k / 4 * 3 + 1));
            assert(byte_or_zero(whole, i / 4 * 3 + 2) == byte_or_zero(b, k / 4 * 3 + 2));
            assert(sextet(whole, i) == sextet(b, k));
        }
    }
    assert(base64_text(whole) =~= split);
}

/// Encodes bytes as base64 text.
pub fn encode_base64(bytes: &[u8]) -> (text: String)
    ensures
        text@ == base64_text(bytes@),
{
    let mut text = String::new();
    let mut start: usize = 0;
    assert(text@ =~= base64_text(bytes@.take(0)));
    while start < bytes.len()
        invariant
            start <= bytes@.len(),
            start % 3 == 0 || start == bytes@.len(),
            text@ == base64_text(bytes@.take(start as int)),
        decreases bytes.len() - start,
    {
        let end: usize = if bytes.len() - start > BLOCK {
            start + BLOCK
        } else {
            bytes.len()
        };
        let block = slice_subrange(bytes, start, end);
        proof {
            texts_of_blocks_make_up_the_whole(bytes@.take(start as int), block@);
            assert(bytes@.take(start as int) + block@ =~= bytes@.take(end as int));
        }
        text.append(encode_block(block).as_str());
        start = end;
    }
    assert(bytes@.take(start as int) =~= bytes@);
    text
}

} // verus!
