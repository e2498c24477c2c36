//! The operation wire format: encoding, parsing, and their round trip.

use halo_lib::remote::ocf;
use halo_lib::wire::{encode_reply, encode_request, parse_reply, parse_request};

#[test]
fn request_round_trip() {
    let args = vec![
        ("mountpoint".to_string(), "/mnt/ost1".to_string()),
        ("target".to_string(), "p1/ost1".to_string()),
    ];
    let frame = encode_request(ocf::Operation::Start, "lustre/Lustre", &args).unwrap();
    let (op, resource, parsed) = parse_request(&frame).unwrap();
    assert_eq!(op, ocf::Operation::Start);
    assert_eq!(resource, "lustre/Lustre");
    assert_eq!(parsed, args);
}

#[test]
fn request_without_arguments() {
    let frame = encode_request(ocf::Operation::Monitor, "heartbeat/ZFS", &vec![]).unwrap();
    let (op, resource, parsed) = parse_request(&frame).unwrap();
    assert_eq!(op, ocf::Operation::Monitor);
    assert_eq!(resource, "heartbeat/ZFS");
    assert!(parsed.is_empty());
}

#[test]
fn reply_round_trip() {
    let frame = encode_reply(&Ok(ocf::Status::ErrNotRunning)).unwrap();
    assert_eq!(parse_reply(&frame).unwrap(), Ok(ocf::Status::ErrNotRunning));
    let frame = encode_reply(&Err("no such script".to_string())).unwrap();
    assert_eq!(parse_reply(&frame).unwrap(), Err("no such script".to_string()));
}

#[test]
fn malformed_frames_are_refused() {
    assert!(parse_request(&vec![]).is_none());
    // An unknown operation tag.
    assert!(parse_request(&vec![9, 0, 0, 0, 0]).is_none());
    // A length that runs past the end of the frame.
    assert!(parse_request(&vec![0, 255, 0, 0, 0]).is_none());
    assert!(parse_reply(&vec![]).is_none());
    assert!(parse_reply(&vec![7]).is_none());
    // A trailing byte after a complete reply.
    assert!(parse_reply(&vec![0, 0, 0]).is_none());
    // Text that is not UTF-8.
    let mut bad = encode_request(ocf::Operation::Stop, "x", &vec![]).unwrap();
    bad[5] = 0xff;
    assert!(parse_request(&bad).is_none());
}
