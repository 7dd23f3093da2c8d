//! Tests of the Wiegand signal decoder: capture, classification, parity.
use doorsys::wiegand::{encode_26bits, parity_check_26bits, CaptureState, Packet};

/// Feeds one bit into the capture state as a pair of opposite line
/// levels, the way the interrupt handler observes them.
fn push_bit(state: &mut CaptureState, bit: bool) -> bool {
    state.push_transition(bit, !bit)
}

#[test]
fn key_frame_digit_is_top_nibble() {
    // Bits 1,0,1,0 arrive: the capture byte is 0xA0 and the digit is its
    // top nibble.
    let mut state = CaptureState::new();
    assert!(push_bit(&mut state, true));
    assert!(push_bit(&mut state, false));
    assert!(push_bit(&mut state, true));
    assert!(push_bit(&mut state, false));
    let packet = state.finish_frame();
    assert_eq!(packet, Packet::Key { key: 0b1010 });
    assert_eq!(0xA0u8 >> 4, 0b1010);
}

#[test]
fn key_frames_cover_all_digits() {
    for digit in 0u32..16 {
        assert_eq!(Packet::new(4, digit), Packet::Key { key: digit as u8 });
    }
}

#[test]
fn noise_transitions_are_ignored() {
    let mut state = CaptureState::new();
    assert!(!state.push_transition(true, true));
    assert!(!state.push_transition(false, false));
    assert!(push_bit(&mut state, true));
    let packet = state.finish_frame();
    assert_eq!(packet, Packet::Unknown { bits: 1, data: 1 });
}

#[test]
fn capture_saturates_at_capacity() {
    let mut state = CaptureState::new();
    for _ in 0..32 {
        assert!(push_bit(&mut state, true));
    }
    // The buffer is full: further transitions are dropped whole.
    assert!(!push_bit(&mut state, true));
    assert!(!push_bit(&mut state, false));
    let packet = state.finish_frame();
    assert_eq!(
        packet,
        Packet::Unknown {
            bits: 32,
            data: 0xFFFF_FFFF
        }
    );
}

#[test]
fn card_frame_round_trip() {
    for id in [0u32, 1, 0x123456, 0xABCDEF, 0xFFFFFF, 0x800001] {
        let frame = encode_26bits(id);
        assert!(parity_check_26bits(frame));
        let packet = Packet::new(26, frame);
        match packet {
            Packet::Card { rfid } => {
                assert_eq!(rfid as u32, id);
                // Re-encoding the recovered id with correct parity bits
                // reproduces the original raw frame.
                assert_eq!(encode_26bits(rfid as u32), frame);
            }
            other => panic!("expected a card packet, got {:?}", other),
        }
    }
}

#[test]
fn card_frame_through_capture_state() {
    let id = 0x5A5A5A;
    let frame = encode_26bits(id);
    let mut state = CaptureState::new();
    for position in (0..26).rev() {
        let bit = (frame >> position) & 1 == 1;
        assert!(push_bit(&mut state, bit));
    }
    let packet = state.finish_frame();
    assert_eq!(packet, Packet::Card { rfid: id as i32 });
}

#[test]
fn flipped_trailing_parity_yields_unknown() {
    for id in [0u32, 7, 0xABCDEF, 0xFFFFFF] {
        let frame = encode_26bits(id);
        let flipped = frame ^ 1;
        assert!(!parity_check_26bits(flipped));
        assert_eq!(
            Packet::new(26, flipped),
            Packet::Unknown {
                bits: 26,
                data: flipped
            }
        );
    }
}

#[test]
fn flipped_leading_parity_yields_unknown() {
    for id in [0u32, 7, 0xABCDEF, 0xFFFFFF] {
        let frame = encode_26bits(id);
        let flipped = frame ^ (1 << 25);
        assert!(!parity_check_26bits(flipped));
        assert_eq!(
            Packet::new(26, flipped),
            Packet::Unknown {
                bits: 26,
                data: flipped
            }
        );
    }
}

#[test]
fn other_frame_lengths_are_unknown() {
    assert_eq!(Packet::new(0, 0), Packet::Unknown { bits: 0, data: 0 });
    assert_eq!(
        Packet::new(5, 0b10101),
        Packet::Unknown {
            bits: 5,
            data: 0b10101
        }
    );
    assert_eq!(
        Packet::new(25, 0x155_5555),
        Packet::Unknown {
            bits: 25,
            data: 0x155_5555
        }
    );
}

#[test]
fn finish_frame_resets_capture() {
    let mut state = CaptureState::new();
    assert!(push_bit(&mut state, true));
    assert!(push_bit(&mut state, true));
    let _ = state.finish_frame();
    // A new frame starts from an empty buffer.
    assert!(push_bit(&mut state, false));
    let packet = state.finish_frame();
    assert_eq!(packet, Packet::Unknown { bits: 1, data: 0 });
}

#[test]
fn parity_check_known_frame() {
    // Frame built by hand: id 0 gives the frame 0b01 (odd parity bit set,
    // even parity bit clear).
    assert_eq!(encode_26bits(0), 1);
    assert!(parity_check_26bits(1));
    assert!(!parity_check_26bits(0));
}
