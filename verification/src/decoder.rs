//! From the comparator's bit sequence to the decoded message.
//!
//! Bits are partitioned into consecutive, non-overlapping chunks of ten; a
//! trailing chunk of fewer than ten bits is never decoded. Each full chunk
//! whose start/stop pattern holds contributes one character; an invalid
//! chunk is skipped and decoding continues with the next one.

use vstd::prelude::*;

verus! {

use crate::frame::decode_frame;
use crate::frame::frame_char;
use crate::frame::frame_ok;
use crate::frame::is_bit;
use crate::frame::is_bit_seq;

/// The characters a bitstream decodes to: one per valid 10-bit chunk, in
/// chunk order; invalid chunks and a short trailing chunk contribute
/// nothing.
pub open spec fn decoded_chars(bits: Seq<u8>) -> Seq<char>
    decreases bits.len(),
{
    if bits.len() < 10 {
        Seq::empty()
    } else {
        let f = bits.take(10);
        let rest = decoded_chars(bits.skip(10));
        if frame_ok(f) {
            seq![frame_char(f)] + rest
        } else {
            rest
        }
    }
}

/// Law: a bitstream decodes to exactly what its truncation to a whole
/// number of 10-bit chunks decodes to — a trailing remainder of fewer than
/// ten bits adds no character and raises no error.
pub proof fn lemma_remainder_ignored(bits: Seq<u8>)
    ensures
        decoded_chars(bits) == decoded_chars(bits.take(10 * (bits.len() as int / 10))),
    decreases bits.len(),
{
    let len = bits.len() as int;
    let whole = 10 * (len / 10);
    if bits.len() < 10 {
        assert(whole == 0);
        assert(bits.take(0) =~= Seq::<u8>::empty());
    } else {
        let t = bits.take(whole);
        vstd::arithmetic::div_mod::lemma_div_plus_one(len - 10, 10);
        lemma_remainder_ignored(bits.skip(10));
        assert(t.take(10) =~= bits.take(10));
        assert(t.skip(10) =~= bits.skip(10).take(10 * (bits.skip(10).len() as int / 10)));
    }
}

/// Law: a 10-bit chunk failing the start/stop check is skipped, and the
/// rest of the stream decodes as if the chunk were absent.
pub proof fn lemma_invalid_frame_skipped(f: Seq<u8>, rest: Seq<u8>)
    requires
        f.len() == 10,
        !frame_ok(f),
    ensures
        decoded_chars(f + rest) == decoded_chars(rest),
{
    assert((f + rest).take(10) =~= f);
    assert((f + rest).skip(10) =~= rest);
}

/// Law: a valid 10-bit chunk contributes exactly its one character, in
/// front of whatever the rest of the stream decodes to.
pub proof fn lemma_valid_frame_decoded(f: Seq<u8>, rest: Seq<u8>)
    requires
        f.len() == 10,
        frame_ok(f),
    ensures
        decoded_chars(f + rest) == seq![frame_char(f)] + decoded_chars(rest),
{
    assert((f + rest).take(10) =~= f);
    assert((f + rest).skip(10) =~= rest);
}

/// Relies on `String::push`: appends the given character to the end of the
/// string.
pub assume_specification[ String::push ](s: &mut String, ch: char)
    ensures
        final(s)@ == old(s)@.push(ch),
;

/// Accumulates decoded characters into the output message, append-only and
/// in decode order.
pub struct MessageBuilder {
    text: String,
}

impl View for MessageBuilder {
    type V = Seq<char>;

    closed spec fn view(&self) -> Seq<char> {
        self.text@
    }
}

impl MessageBuilder {
    /// Starts with an empty message.
    pub fn new() -> (b: Self)
        ensures
            b@ == Seq::<char>::empty(),
    {
        MessageBuilder { text: String::new() }
    }

    /// Appends one character; everything already appended is kept.
    pub fn push_char(&mut self, c: char)
        ensures
            final(self)@ == old(self)@.push(c),
    {
        self.text.push(c);
    }

    /// Hands the finished message out.
    pub fn message(self) -> (s: String)
        ensures
            s@ == self@,
    {
        self.text
    }
}

/// Groups the bit sequence into candidate 10-bit frames: bits go in one at
/// a time, and every tenth bit completes a frame and empties the buffer, so
/// frames never overlap and never share bits.
pub struct BitStreamAssembler {
    pending: Vec<u8>,
}

impl View for BitStreamAssembler {
    type V = Seq<u8>;

    closed spec fn view(&self) -> Seq<u8> {
        self.pending@
    }
}

impl BitStreamAssembler {
    /// Well-formed: fewer than ten pending bits, each of them 0 or 1.
    pub open spec fn wf(&self) -> bool {
        self@.len() < 10 && is_bit_seq(self@)
    }

    /// Starts with no pending bits.
    pub fn new() -> (a: Self)
        ensures
            a@ == Seq::<u8>::empty(),
            a.wf(),
    {
        BitStreamAssembler { pending: Vec::new() }
    }

    /// Feeds one bit. The tenth bit completes a frame: the ten bits are
    /// handed out in arrival order and the buffer restarts empty; any
    /// earlier bit is only buffered.
    pub fn push_bit(&mut self, bit: u8) -> (frame: Option<Vec<u8>>)
        requires
            old(self).wf(),
            is_bit(bit),
        ensures
            final(self).wf(),
            old(self)@.len() == 9 ==> (frame matches Some(f) && f@ == old(self)@.push(bit)
                && final(self)@ == Seq::<u8>::empty()),
            old(self)@.len() < 9 ==> frame is None && final(self)@ == old(self)@.push(bit),
    {
        self.pending.push(bit);
        if self.pending.len() == 10 {
            let mut f: Vec<u8> = Vec::new();
            core::mem::swap(&mut f, &mut self.pending);
            Some(f)
        } else {
            None
        }
    }
}

/// Decodes a whole bitstream into the message it carries.
///
/// One character per valid 10-bit chunk, in order; invalid chunks are
/// skipped; a trailing chunk of fewer than ten bits is ignored.
pub fn decode_bitstream(bits: &[u8]) -> (msg: String)
    requires
        is_bit_seq(bits@),
    ensures
        msg@ == decoded_chars(bits@),
{
    let n = bits.len();
    let mut builder = MessageBuilder::new();
    let mut grouper = BitStreamAssembler::new();
    let mut i: usize = 0;
    proof {
        assert(bits@.skip(0) =~= bits@);
        assert(Seq::<char>::empty() + decoded_chars(bits@) =~= decoded_chars(bits@));
    }
    while i < n
        invariant
            n == bits@.len(),
            0 <= i <= n,
            is_bit_seq(bits@),
            grouper.wf(),
            grouper@.len() == i % 10,
            grouper@ == bits@.subrange(i - (i % 10), i as int),
            decoded_chars(bits@) == builder@ + decoded_chars(bits@.skip(i - (i % 10))),
        decreases n - i,
    {
        let bit = bits[i];
        let ghost start = i - (i % 10);
        let completed = grouper.push_bit(bit);
        match completed {
            Some(f) => {
                proof {
                    assert(f@ =~= bits@.subrange(start, start + 10));
                    assert(bits@.skip(start).take(10) =~= bits@.subrange(start, start + 10));
                    assert(bits@.skip(start).skip(10) =~= bits@.skip(start + 10));
                    assert(is_bit_seq(f@));
                }
                match decode_frame(f.as_slice()) {
                    Some(code) => {
                        builder.push_char(code as char);
                        proof {
                            assert(frame_ok(bits@.skip(start).take(10)));
                            assert((code as char) == frame_char(bits@.skip(start).take(10)));
                        }
                    },
                    None => {
                        proof {
                            assert(!frame_ok(bits@.skip(start).take(10)));
                        }
                    },
                }
            },
            None => {
            },
        }
        i = i + 1;
    }
    proof {
        assert(decoded_chars(bits@.skip(i - (i % 10))) =~= Seq::<char>::empty());
        assert(builder@ =~= decoded_chars(bits@));
    }
    builder.message()
}

} // verus!
