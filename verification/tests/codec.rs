use ssn_core::crc16::{ccitt_16, crc_modbus};
use ssn_core::pdu::{DecodeOutcome, SsnPdu};

#[test]
fn ccitt_of_empty_is_the_initial_register() {
    assert_eq!(ccitt_16(b""), 0xFFFF);
}

#[test]
fn ccitt_matches_known_vector() {
    assert_eq!(ccitt_16(b"123456789"), 0x29B1);
}

#[test]
fn ccitt_is_stable_across_invocations() {
    let payload = b"some sensor payload 21.5";
    let a = ccitt_16(payload);
    let b = ccitt_16(payload);
    let c = ccitt_16(payload);
    assert_eq!(a, b);
    assert_eq!(b, c);
}

#[test]
fn modbus_matches_reference_vectors() {
    assert_eq!(crc_modbus(b""), 0xFFFF);
    assert_eq!(crc_modbus(b"123456789"), 0x4B37);
}

#[test]
fn encode_produces_exact_wire_bytes() {
    let frame = SsnPdu::new(0x0001, 0x0002, 0x03, b"123456789".to_vec());
    let wire = frame.get_ssn_pdu();
    assert_eq!(wire, b"===ssn10001000203000912345678929b1".to_vec());
}

#[test]
fn encode_of_empty_payload_uses_crc_of_zero_bytes() {
    let frame = SsnPdu::new(0xABCD, 0x1234, 0xFF, Vec::new());
    let wire = frame.get_ssn_pdu();
    assert_eq!(wire, b"===ssn1abcd1234ff0000ffff".to_vec());
}

#[test]
fn decode_round_trips_an_encoded_frame() {
    let frame = SsnPdu::new(7, 42, 9, b"hello".to_vec());
    let wire = frame.get_ssn_pdu();
    match SsnPdu::process_buffer(&wire) {
        DecodeOutcome::Decoded { frame: out, rest } => {
            assert_eq!(out.dest_obj, 7);
            assert_eq!(out.src_obj, 42);
            assert_eq!(out.msg_type, 9);
            assert_eq!(out.msg_data, b"hello".to_vec());
            assert!(out.msg_id.is_none());
            assert!(rest.is_empty());
        },
        _ => panic!("expected a decoded frame"),
    }
}

#[test]
fn decode_round_trips_an_empty_payload() {
    let frame = SsnPdu::new(1, 2, 3, Vec::new());
    let wire = frame.get_ssn_pdu();
    match SsnPdu::process_buffer(&wire) {
        DecodeOutcome::Decoded { frame: out, rest } => {
            assert_eq!(out.dest_obj, 1);
            assert_eq!(out.src_obj, 2);
            assert_eq!(out.msg_type, 3);
            assert!(out.msg_data.is_empty());
            assert!(rest.is_empty());
        },
        _ => panic!("expected a decoded frame"),
    }
}

#[test]
fn decode_finds_a_frame_after_leading_noise() {
    let mut buffer = b"noise===ss".to_vec();
    buffer.extend_from_slice(&SsnPdu::new(5, 6, 7, b"x".to_vec()).get_ssn_pdu());
    match SsnPdu::process_buffer(&buffer) {
        DecodeOutcome::Decoded { frame, rest } => {
            assert_eq!(frame.dest_obj, 5);
            assert_eq!(frame.msg_data, b"x".to_vec());
            assert!(rest.is_empty());
        },
        _ => panic!("expected a decoded frame"),
    }
}

#[test]
fn decode_yields_two_back_to_back_frames_in_order() {
    let mut buffer = SsnPdu::new(1, 2, 3, b"first".to_vec()).get_ssn_pdu();
    buffer.extend_from_slice(&SsnPdu::new(4, 5, 6, b"second".to_vec()).get_ssn_pdu());
    let rest = match SsnPdu::process_buffer(&buffer) {
        DecodeOutcome::Decoded { frame, rest } => {
            assert_eq!(frame.dest_obj, 1);
            assert_eq!(frame.msg_data, b"first".to_vec());
            rest
        },
        _ => panic!("expected the first frame"),
    };
    match SsnPdu::process_buffer(&rest) {
        DecodeOutcome::Decoded { frame, rest } => {
            assert_eq!(frame.dest_obj, 4);
            assert_eq!(frame.msg_data, b"second".to_vec());
            assert!(rest.is_empty());
        },
        _ => panic!("expected the second frame"),
    }
}

#[test]
fn decode_waits_when_no_marker_is_present() {
    assert!(matches!(SsnPdu::process_buffer(b"no frame here"), DecodeOutcome::Incomplete));
    assert!(matches!(SsnPdu::process_buffer(b""), DecodeOutcome::Incomplete));
}

#[test]
fn decode_waits_on_a_marker_with_a_short_header() {
    // marker present, but only 13 of the 14 header characters
    let buffer = b"===ssn1000100020300".to_vec();
    assert!(matches!(SsnPdu::process_buffer(&buffer), DecodeOutcome::Incomplete));
}

#[test]
fn decode_waits_on_an_incomplete_body() {
    // header declares 9 payload bytes; only part of the payload has arrived
    let buffer = b"===ssn100010002030009123".to_vec();
    assert!(matches!(SsnPdu::process_buffer(&buffer), DecodeOutcome::Incomplete));
}

#[test]
fn decode_accepts_uppercase_hex_fields() {
    let buffer = b"===ssn1ABCD1234FF0000FFFF".to_vec();
    match SsnPdu::process_buffer(&buffer) {
        DecodeOutcome::Decoded { frame, rest } => {
            assert_eq!(frame.dest_obj, 0xABCD);
            assert_eq!(frame.src_obj, 0x1234);
            assert_eq!(frame.msg_type, 0xFF);
            assert!(frame.msg_data.is_empty());
            assert!(rest.is_empty());
        },
        _ => panic!("expected a decoded frame"),
    }
}

#[test]
fn decode_rejects_a_non_hex_header_and_skips_the_marker() {
    let buffer = b"===ssn1zzzz000203000912345678929b1".to_vec();
    match SsnPdu::process_buffer(&buffer) {
        DecodeOutcome::Malformed { rest } => {
            assert_eq!(rest, buffer[7..].to_vec());
            assert!(rest.len() < buffer.len());
        },
        _ => panic!("expected a malformed outcome"),
    }
}

#[test]
fn decode_reports_a_flipped_checksum_and_makes_progress() {
    // last checksum character flipped by one bit: 0x31 ('1') -> 0x30 ('0')
    let buffer = b"===ssn10001000203000912345678929b0".to_vec();
    let rest = match SsnPdu::process_buffer(&buffer) {
        DecodeOutcome::Mismatch { dest_obj, src_obj, declared_crc, computed_crc, rest } => {
            assert_eq!(dest_obj, 1);
            assert_eq!(src_obj, 2);
            assert_eq!(declared_crc, 0x29B0);
            assert_eq!(computed_crc, 0x29B1);
            assert_eq!(rest, buffer[7..].to_vec());
            rest
        },
        _ => panic!("expected a checksum mismatch"),
    };
    // re-feeding the remainder terminates: it shrank and holds no marker
    assert!(rest.len() < buffer.len());
    assert!(matches!(SsnPdu::process_buffer(&rest), DecodeOutcome::Incomplete));
}

#[test]
fn new_sets_fields_and_leaves_the_reserved_id_absent() {
    let frame = SsnPdu::new(10, 20, 30, b"abc".to_vec());
    assert_eq!(frame.dest_obj, 10);
    assert_eq!(frame.src_obj, 20);
    assert_eq!(frame.msg_type, 30);
    assert!(frame.msg_id.is_none());
    assert_eq!(frame.msg_data, b"abc".to_vec());
}
