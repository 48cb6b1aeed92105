use sse_broadcast::frame::{connected_frame, frame_message, ping_frame};

#[test]
fn frames_payload_exactly() {
    let framed = frame_message(&b"hello".to_vec());
    assert_eq!(framed, b"data: hello\n\n".to_vec());
}

#[test]
fn frames_empty_payload() {
    let framed = frame_message(&Vec::new());
    assert_eq!(framed, b"data: \n\n".to_vec());
}

#[test]
fn connected_frame_bytes() {
    assert_eq!(connected_frame(), b"data: connected\n\n".to_vec());
}

#[test]
fn ping_frame_bytes() {
    assert_eq!(ping_frame(), b"data: ping\n\n".to_vec());
}
