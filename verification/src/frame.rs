//! 10-bit frame validation and character extraction.
//!
//! A frame is 10 consecutive bits: a start bit that must be `0`, seven data
//! bits packed least-significant-bit first, one unused bit, and a stop bit
//! that must be `1`.

use vstd::prelude::*;

verus! {

use vstd::arithmetic::div_mod::lemma_fundamental_div_mod;
use vstd::arithmetic::div_mod::lemma_fundamental_div_mod_converse;
use vstd::arithmetic::power2::lemma2_to64;
use vstd::arithmetic::power2::lemma_pow2_pos;
use vstd::arithmetic::power2::lemma_pow2_unfold;
use vstd::arithmetic::power2::pow2;

/// A bit is carried as a `u8` holding `0` or `1`.
pub open spec fn is_bit(b: u8) -> bool {
    b == 0 || b == 1
}

/// Every element of the sequence is a bit.
pub open spec fn is_bit_seq(bits: Seq<u8>) -> bool {
    forall|i: int| 0 <= i < bits.len() ==> is_bit(#[trigger] bits[i])
}

/// The integer encoded by a bit sequence, least-significant bit first.
pub open spec fn lsb_value(bits: Seq<u8>) -> int
    decreases bits.len(),
{
    if bits.len() == 0 {
        0
    } else {
        bits[0] + 2 * lsb_value(bits.drop_first())
    }
}

/// A frame is decodable when it has exactly 10 bits, a `0` start bit and a
/// `1` stop bit.
pub open spec fn frame_ok(f: Seq<u8>) -> bool {
    f.len() == 10 && f[0] == 0 && f[9] == 1
}

/// The character code of a frame: its seven data bits (indices 1 through 7),
/// packed least-significant-bit first.
pub open spec fn frame_code(f: Seq<u8>) -> int {
    lsb_value(f.subrange(1, 8))
}

/// The character a valid frame decodes to.
pub open spec fn frame_char(f: Seq<u8>) -> char {
    (frame_code(f) as u8) as char
}

/// An encoding of `bits` bits of `code`, least-significant bit first.
pub open spec fn lsb_bits(code: int, n: nat) -> Seq<u8>
    decreases n,
{
    if n == 0 {
        Seq::empty()
    } else {
        seq![(code % 2) as u8] + lsb_bits(code / 2, (n - 1) as nat)
    }
}

/// Validates one candidate frame and extracts its character code.
///
/// Returns `Some` exactly when the frame has 10 bits with a `0` start bit
/// and a `1` stop bit; a short (or long) candidate and a frame failing the
/// start/stop check are both rejected, never indexed out of bounds. The code
/// packs data bits 1 through 7 least-significant-bit first, so it is at most
/// 127 and always names a valid character.
pub fn decode_frame(frame: &[u8]) -> (r: Option<u8>)
    requires
        is_bit_seq(frame@),
    ensures
        r is Some <==> frame_ok(frame@),
        r is Some ==> r->0 == frame_code(frame@) && r->0 <= 127,
{
    if frame.len() != 10 {
        return None;
    }
    if !(frame[0] == 0 && frame[9] == 1) {
        return None;
    }
    let code: u8 = frame[1] + 2 * frame[2] + 4 * frame[3] + 8 * frame[4] + 16 * frame[5] + 32
        * frame[6] + 64 * frame[7];
    proof {
        let s = frame@;
        assert(s.subrange(1, 8).drop_first() =~= s.subrange(2, 8));
        assert(s.subrange(2, 8).drop_first() =~= s.subrange(3, 8));
        assert(s.subrange(3, 8).drop_first() =~= s.subrange(4, 8));
        assert(s.subrange(4, 8).drop_first() =~= s.subrange(5, 8));
        assert(s.subrange(5, 8).drop_first() =~= s.subrange(6, 8));
        assert(s.subrange(6, 8).drop_first() =~= s.subrange(7, 8));
        assert(s.subrange(7, 8).drop_first() =~= s.subrange(8, 8));
        assert(lsb_value(s.subrange(8, 8)) == 0);
        assert(lsb_value(s.subrange(7, 8)) == s[7] + 2 * lsb_value(s.subrange(8, 8)));
        assert(lsb_value(s.subrange(6, 8)) == s[6] + 2 * lsb_value(s.subrange(7, 8)));
        assert(lsb_value(s.subrange(5, 8)) == s[5] + 2 * lsb_value(s.subrange(6, 8)));
        assert(lsb_value(s.subrange(4, 8)) == s[4] + 2 * lsb_value(s.subrange(5, 8)));
        assert(lsb_value(s.subrange(3, 8)) == s[3] + 2 * lsb_value(s.subrange(4, 8)));
        assert(lsb_value(s.subrange(2, 8)) == s[2] + 2 * lsb_value(s.subrange(3, 8)));
        assert(lsb_value(s.subrange(1, 8)) == s[1] + 2 * lsb_value(s.subrange(2, 8)));
    }
    Some(code)
}

/// The canonical frame carrying `code`: start bit `0`, the seven data bits
/// of `code` least-significant first, a `1` in the unused position, and the
/// `1` stop bit.
pub open spec fn frame_of_code(code: int) -> Seq<u8> {
    seq![0u8] + lsb_bits(code, 7) + seq![1u8, 1u8]
}

/// A bit sequence encodes a value below `2^len`.
pub proof fn lemma_lsb_value_bound(bits: Seq<u8>)
    requires
        is_bit_seq(bits),
    ensures
        0 <= lsb_value(bits) < pow2(bits.len()),
    decreases bits.len(),
{
    lemma_pow2_pos(bits.len());
    if bits.len() > 0 {
        lemma_lsb_value_bound(bits.drop_first());
        lemma_pow2_unfold(bits.len());
    }
}

/// The encoding of any nonnegative value is made of bits, `n` of them.
pub proof fn lemma_lsb_bits_wf(code: int, n: nat)
    requires
        0 <= code,
    ensures
        lsb_bits(code, n).len() == n,
        is_bit_seq(lsb_bits(code, n)),
    decreases n,
{
    if n > 0 {
        lemma_lsb_bits_wf(code / 2, (n - 1) as nat);
    }
}

/// Encoding a value below `2^n` on `n` bits and reading the bits back
/// recovers the value.
pub proof fn lemma_lsb_value_of_bits(code: int, n: nat)
    requires
        0 <= code < pow2(n),
    ensures
        lsb_value(lsb_bits(code, n)) == code,
    decreases n,
{
    if n == 0 {
        assert(pow2(0) == 1) by {
            lemma2_to64();
        }
    } else {
        lemma_pow2_unfold(n);
        lemma_fundamental_div_mod(code, 2);
        lemma_lsb_value_of_bits(code / 2, (n - 1) as nat);
        assert(lsb_bits(code, n).drop_first() =~= lsb_bits(code / 2, (n - 1) as nat));
    }
}

/// Reading the value of a bit sequence and encoding it again on the same
/// number of bits recovers the sequence: together with
/// [`lemma_lsb_value_of_bits`], packing is a bijection between bit
/// sequences of length `n` and values below `2^n`.
pub proof fn lemma_lsb_bits_of_value(bits: Seq<u8>)
    requires
        is_bit_seq(bits),
    ensures
        lsb_bits(lsb_value(bits), bits.len()) == bits,
    decreases bits.len(),
{
    if bits.len() > 0 {
        let rest = bits.drop_first();
        let v = lsb_value(bits);
        lemma_lsb_value_bound(rest);
        lemma_fundamental_div_mod_converse(v, 2, lsb_value(rest), bits[0] as int);
        lemma_lsb_bits_of_value(rest);
        assert(lsb_bits(v, bits.len()) =~= bits);
    }
}

/// Law: every code from 0 through 127 is carried by a valid frame, and
/// decoding that frame recovers exactly the code — one direction of the
/// bijection between 7-bit codes and valid frames' data bits.
pub proof fn lemma_decode_of_encode(code: int)
    requires
        0 <= code <= 127,
    ensures
        frame_of_code(code).len() == 10,
        is_bit_seq(frame_of_code(code)),
        frame_ok(frame_of_code(code)),
        frame_code(frame_of_code(code)) == code,
{
    lemma_lsb_bits_wf(code, 7);
    assert(pow2(7) == 128) by {
        lemma2_to64();
    }
    lemma_lsb_value_of_bits(code, 7);
    assert(frame_of_code(code).subrange(1, 8) =~= lsb_bits(code, 7));
}

/// Law: a frame's code is between 0 and 127, and determines the frame's
/// seven data bits — the other direction of the bijection. Two frames with
/// the same code carry the same data bits.
pub proof fn lemma_encode_of_decode(f: Seq<u8>)
    requires
        is_bit_seq(f),
        f.len() == 10,
    ensures
        0 <= frame_code(f) <= 127,
        lsb_bits(frame_code(f), 7) == f.subrange(1, 8),
{
    let data = f.subrange(1, 8);
    assert(is_bit_seq(data));
    lemma_lsb_value_bound(data);
    assert(pow2(7) == 128) by {
        lemma2_to64();
    }
    lemma_lsb_bits_of_value(data);
}

/// Law: decoding is injective at the character level too — two frames
/// carrying distinct codes decode to distinct characters, so a message
/// character determines the data bits of the frame it came from.
pub proof fn lemma_frame_char_injective(a: Seq<u8>, b: Seq<u8>)
    requires
        is_bit_seq(a),
        a.len() == 10,
        is_bit_seq(b),
        b.len() == 10,
        frame_code(a) != frame_code(b),
    ensures
        frame_char(a) != frame_char(b),
{
    lemma_encode_of_decode(a);
    lemma_encode_of_decode(b);
    assert((frame_code(a) as u8 as char) as u32 == frame_code(a) as u8 as u32);
    assert((frame_code(b) as u8 as char) as u32 == frame_code(b) as u8 as u32);
}

} // verus!
