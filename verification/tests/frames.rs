//! Frames as bytes.

use strata::frames::{frame_of, take_frame, FrameStep};

#[test]
fn frames_are_read_again_and_the_rest_is_left() {
    let mut bytes = frame_of(b"{\"a\":1}");
    assert_eq!(bytes, b"Content-Length: 7\r\n\r\n{\"a\":1}");
    let first = bytes.len();
    bytes.extend(frame_of("\u{e9}\n".as_bytes()));
    match take_frame(&bytes, false) {
        FrameStep::Body { from, to } => {
            assert_eq!(&bytes[from..to], b"{\"a\":1}");
            assert_eq!(to, first);
            match take_frame(&bytes[to..], true) {
                FrameStep::Body { from, to: end } => {
                    assert_eq!(&bytes[to + from..to + end], "\u{e9}\n".as_bytes());
                    assert_eq!(take_frame(&bytes[to + end..], true), FrameStep::Ended);
                }
                other => panic!("{other:?}"),
            }
        }
        other => panic!("{other:?}"),
    }
    assert_eq!(take_frame(&frame_of(b""), false), FrameStep::Body { from: 21, to: 21 });
}

#[test]
fn part_of_a_frame_is_waited_for() {
    let bytes = frame_of(b"body");
    for len in 0..bytes.len() {
        assert_eq!(take_frame(&bytes[..len], false), FrameStep::More, "{len}");
    }
    assert_eq!(take_frame(&bytes[..bytes.len() - 1], true), FrameStep::CutShort);
    assert_eq!(take_frame(&bytes[..10], true), FrameStep::Ended);
    assert_eq!(take_frame(b"", true), FrameStep::Ended);
}

#[test]
fn headers_that_tell_no_length_are_refused() {
    assert_eq!(take_frame(b"\r\nbody", false), FrameStep::NoLength);
    assert_eq!(take_frame(b"Content-Type: x\n\n", false), FrameStep::NoLength);
    assert_eq!(take_frame(b"Content-Length: x\r\n", false), FrameStep::BadLength);
    assert_eq!(take_frame(b"Content-Length: x", false), FrameStep::More);
    assert_eq!(take_frame(b"Content-Length: x", true), FrameStep::BadLength);
    assert_eq!(take_frame(b"\xff\xfe\n", false), FrameStep::NotText);
    assert_eq!(take_frame(b"\xff", true), FrameStep::NotText);
    assert_eq!(
        take_frame(b"content-length: 9\nContent-Length: 2\nX: y\n\nabc", false),
        FrameStep::Body { from: 42, to: 44 }
    );
}
