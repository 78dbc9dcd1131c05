use zor::boundary::{BoundaryTracker, MAX_CONTROL_STRING_BYTES};

#[test]
fn tracker_recognizes_every_split_of_control_strings() {
    for sequence in [
        b"\x1b]title\x1b\\".as_slice(),
        b"\x1bPpayload\x1b\\",
        b"\x1bXpayload\x1b\\",
        b"\x1b^payload\x1b\\",
        b"\x1b_payload\x1b\\",
        b"\x1b[31m",
        b"\x9dtitle\x07",
        b"\x90data\x9c",
    ] {
        for split in 0..=sequence.len() {
            let mut tracker = BoundaryTracker::default();
            tracker.feed(sequence.get(..split).unwrap_or_default());
            tracker.feed(sequence.get(split..).unwrap_or_default());
            assert!(tracker.ground());
        }
    }
}

#[test]
fn tracker_is_off_the_ground_inside_sequences() {
    for sequence in [
        b"\x1b".as_slice(),
        b"\x1b(",
        b"\x1b[31",
        b"\x1b]2;title",
        b"\x1b]2;title\x1b",
        b"\x1bPdata\x07",
        b"\x9b1",
    ] {
        let mut tracker = BoundaryTracker::default();
        tracker.feed(sequence);
        assert!(!tracker.ground());
    }
}

#[test]
fn cancel_and_substitute_end_every_sequence() {
    for start in [b"\x1b".as_slice(), b"\x1b[1", b"\x1b]2;t", b"\x1bPd", b"\x1b_a\x1b"] {
        for end in [b"\x18".as_slice(), b"\x1a"] {
            let mut tracker = BoundaryTracker::default();
            tracker.feed(start);
            tracker.feed(end);
            assert!(tracker.ground());
        }
    }
}

#[test]
fn only_operating_system_commands_end_at_a_bell() {
    let mut command = BoundaryTracker::default();
    command.feed(b"\x1b]9;4;1;10\x07");
    assert!(command.ground());
    let mut device = BoundaryTracker::default();
    device.feed(b"\x1bP1\x07");
    assert!(!device.ground());
}

#[test]
fn the_first_byte_beyond_the_limit_is_cancelled_and_the_rest_kept_back() {
    let mut tracker = BoundaryTracker::default();
    assert_eq!(tracker.parser_byte(0x1b), Some(0x1b));
    assert_eq!(tracker.parser_byte(b']'), Some(b']'));
    for _ in 0..MAX_CONTROL_STRING_BYTES {
        assert_eq!(tracker.parser_byte(b'x'), Some(b'x'));
    }
    assert_eq!(tracker.parser_byte(b'y'), Some(0x18));
    assert_eq!(tracker.parser_byte(b'z'), None);
    assert!(!tracker.ground());
    assert_eq!(tracker.parser_byte(0x07), None);
    assert!(tracker.ground());
    assert_eq!(tracker.parser_byte(b'a'), Some(b'a'));
}
