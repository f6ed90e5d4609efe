use bell103::decode_bitstream;
use bell103::decode_frame;
use bell103::BitStreamAssembler;
use bell103::MessageBuilder;

/// Builds the 10-bit frame for an ASCII character: start bit 0, seven data
/// bits least-significant first, one freely chosen unused bit, stop bit 1.
fn frame_for(c: char, unused: u8) -> Vec<u8> {
    let code = c as u32;
    assert!(code <= 127);
    let mut frame = vec![0u8];
    for i in 0..7 {
        frame.push(((code >> i) & 1) as u8);
    }
    frame.push(unused);
    frame.push(1u8);
    frame
}

#[test]
fn frame_round_trip_ascii() {
    // 'A' is 65 = 1000001 binary, so LSB-first data bits are 1,0,0,0,0,0,1.
    let frame = vec![0u8, 1, 0, 0, 0, 0, 0, 1, 1, 1];
    assert_eq!(decode_frame(&frame), Some(65));
    assert_eq!(decode_bitstream(&frame), "A".to_string());
    for c in ['A', 'z', '~', ' ', '\n', '\0'] {
        let f = frame_for(c, 1);
        assert_eq!(decode_frame(&f), Some(c as u8));
        let msg = decode_bitstream(&f);
        assert_eq!(msg.chars().next(), Some(c));
        assert_eq!(msg.chars().count(), 1);
    }
}

#[test]
fn frame_bad_start_bit_rejected() {
    let mut frame = frame_for('A', 1);
    frame[0] = 1;
    assert_eq!(decode_frame(&frame), None);
}

#[test]
fn frame_bad_stop_bit_rejected() {
    let mut frame = frame_for('A', 1);
    frame[9] = 0;
    assert_eq!(decode_frame(&frame), None);
}

#[test]
fn short_candidate_rejected_not_indexed() {
    assert_eq!(decode_frame(&[]), None);
    assert_eq!(decode_frame(&[0, 1, 1]), None);
    assert_eq!(decode_frame(&[0, 1, 1, 0, 1, 1, 0, 1, 1]), None);
    assert_eq!(decode_frame(&[0, 1, 1, 0, 1, 1, 0, 1, 1, 1, 0]), None);
}

#[test]
fn unused_bit_does_not_change_character() {
    let with_zero = frame_for('Q', 0);
    let with_one = frame_for('Q', 1);
    assert_eq!(decode_frame(&with_zero), decode_frame(&with_one));
    assert_eq!(decode_bitstream(&with_zero), decode_bitstream(&with_one));
}

#[test]
fn invalid_frame_between_valid_is_skipped() {
    let mut bits = frame_for('H', 1);
    let mut bad = frame_for('X', 1);
    bad[0] = 1; // bad start bit
    bits.extend(bad);
    bits.extend(frame_for('I', 1));
    assert_eq!(decode_bitstream(&bits), "HI".to_string());

    let mut bits = frame_for('H', 1);
    let mut bad = frame_for('X', 1);
    bad[9] = 0; // bad stop bit
    bits.extend(bad);
    bits.extend(frame_for('I', 1));
    assert_eq!(decode_bitstream(&bits), "HI".to_string());
}

#[test]
fn trailing_remainder_is_ignored() {
    let mut bits = frame_for('O', 1);
    bits.extend(frame_for('K', 1));
    let whole = decode_bitstream(&bits);
    bits.extend([0u8, 1, 1]); // three leftover bits, not a full frame
    assert_eq!(decode_bitstream(&bits), whole);
    assert_eq!(whole, "OK".to_string());
}

#[test]
fn empty_and_short_bitstreams_decode_to_empty() {
    assert_eq!(decode_bitstream(&[]), String::new());
    assert_eq!(decode_bitstream(&[0, 1, 1, 1, 0, 1, 0, 1, 1]), String::new());
}

#[test]
fn assembler_emits_every_tenth_bit() {
    let mut grouper = BitStreamAssembler::new();
    let bits = frame_for('b', 0);
    for (i, &b) in bits.iter().enumerate() {
        let out = grouper.push_bit(b);
        if i < 9 {
            assert!(out.is_none());
        } else {
            assert_eq!(out, Some(bits.clone()));
        }
    }
    // The buffer restarted: the next frame gets only its own bits.
    let bits2 = frame_for('c', 1);
    for (i, &b) in bits2.iter().enumerate() {
        let out = grouper.push_bit(b);
        if i < 9 {
            assert!(out.is_none());
        } else {
            assert_eq!(out, Some(bits2.clone()));
        }
    }
}

#[test]
fn message_builder_keeps_order() {
    let mut builder = MessageBuilder::new();
    builder.push_char('h');
    builder.push_char('i');
    assert_eq!(builder.message(), "hi".to_string());
}

#[test]
fn all_codes_round_trip() {
    for code in 0u8..=127 {
        let f = frame_for(code as char, 1);
        assert_eq!(decode_frame(&f), Some(code));
    }
}
